//! The call dispatcher: a keyed table of request handlers working on
//! opaque serialized payloads. A handler comes in three shapes:
//!
//! - *immediate*: user logic runs on the calling thread;
//! - *externally polled*: the key is bridged to a capacity-one rendezvous
//!   pair, and a separate driver drains one pending request per
//!   non-blocking step ([`AsyncHandler::try_handle`]);
//! - *manually polled*: the registering code itself takes requests and
//!   pushes responses through a [`RequestAsyncReceiver`].
//!
//! Registering a key that already exists silently replaces the previous
//! handler (last registration wins). An unknown key is answered with the
//! neutral empty-object payload rather than an error. For the two bridged
//! shapes, each key's rendezvous pair serializes its own traffic: a second
//! call for the same key cannot even enqueue its request until the first
//! call's full round trip has completed.

use vstd::prelude::*;

use crate::text::str_eq;

verus! {

/// The fatal failure of one call: the handler could not decode the
/// serialized input against its expected shape.
#[derive(Debug, PartialEq, Eq, Structural, Clone, Copy)]
pub enum CallError {
    InvalidInput,
}

/// The failure of a file fetch: the key's handler could not read the path.
#[derive(Debug, PartialEq, Eq, Structural, Clone, Copy)]
pub enum FileError {
    NotFound,
}

/// User logic bound to a call key. `accepts` says which serialized inputs
/// the handler can decode, and `output` the serialized result it computes
/// for them; `handle` fails exactly on the inputs it does not accept.
pub trait CallHandler: Sized {
    /// Which serialized inputs the handler can decode. A verified
    /// implementor overrides this; the default stands for implementors
    /// outside the verified world, which only provide `handle`.
    open spec fn accepts(&self, input: Seq<char>) -> bool {
        false
    }

    /// The serialized output computed for an accepted input; overridden
    /// like `accepts`.
    open spec fn output(&self, input: Seq<char>) -> Seq<char> {
        Seq::empty()
    }

    fn handle(&self, input: &str) -> (r: Result<String, CallError>)
        ensures
            match r {
                Ok(out) => self.accepts(input@) && out@ == self.output(input@),
                Err(_) => !self.accepts(input@),
            },
    ;
}

/// User logic bound to a file key: a reader from a path to the bytes
/// served under it. `fetch` fails exactly on the paths it cannot read.
pub trait FileHandler: Sized {
    /// Which paths the handler can read. A verified implementor overrides
    /// this; the default stands for implementors outside the verified
    /// world, which only provide `fetch`.
    open spec fn found(&self, path: Seq<char>) -> bool {
        false
    }

    /// The bytes served for a readable path; overridden like `found`.
    open spec fn content(&self, path: Seq<char>) -> Seq<u8> {
        Seq::empty()
    }

    fn fetch(&self, path: &str) -> (r: Result<Vec<u8>, FileError>)
        ensures
            match r {
                Ok(bytes) => self.found(path@) && bytes@ == self.content(path@),
                Err(_) => !self.found(path@),
            },
    ;
}

/// The state of one capacity-one rendezvous pair. At most one request is in
/// flight; a new request can be enqueued only when the pair is idle, which
/// is what serializes same-key traffic end to end.
pub enum Rendezvous {
    /// No call in flight.
    Idle,
    /// A caller enqueued a request that no receiver has taken yet.
    Requested(String),
    /// A receiver took the request and has not yet sent the response.
    Taken,
    /// The response is ready for the blocked caller to collect.
    Answered(String),
}

/// The view of a rendezvous pair: the same four stages with payloads as
/// character sequences.
pub enum Stage {
    Idle,
    Requested(Seq<char>),
    Taken,
    Answered(Seq<char>),
}

impl Rendezvous {
    pub open spec fn view_stage(&self) -> Stage {
        match self {
            Rendezvous::Idle => Stage::Idle,
            Rendezvous::Requested(s) => Stage::Requested(s@),
            Rendezvous::Taken => Stage::Taken,
            Rendezvous::Answered(s) => Stage::Answered(s@),
        }
    }
}

/// Offering a request to a rendezvous pair: it is enqueued only when the
/// pair is idle; an engaged pair is left exactly as it was, so a pending
/// request is never overwritten by a concurrent call.
pub open spec fn offer_stage(st: Stage, input: Seq<char>) -> (Stage, bool) {
    match st {
        Stage::Idle => (Stage::Requested(input), true),
        _ => (st, false),
    }
}

/// One driver step against a rendezvous pair: a pending request is drained
/// and answered (or dropped, when the handler cannot decode it); any other
/// stage is left unchanged.
pub open spec fn drive_stage(st: Stage, accepts: bool, out: Seq<char>) -> Stage {
    match st {
        Stage::Requested(_) => if accepts {
            Stage::Answered(out)
        } else {
            Stage::Idle
        },
        _ => st,
    }
}

/// Taking a request out of a rendezvous pair (manual path): a pending
/// request moves the pair to `Taken`; any other stage yields nothing.
pub open spec fn receive_stage(st: Stage) -> (Stage, Option<Seq<char>>) {
    match st {
        Stage::Requested(x) => (Stage::Taken, Some(x)),
        _ => (st, None),
    }
}

/// Collecting the response from a rendezvous pair: an answered pair hands
/// the response out exactly once and returns to idle.
pub open spec fn take_stage(st: Stage) -> (Stage, Option<Seq<char>>) {
    match st {
        Stage::Answered(out) => (Stage::Idle, Some(out)),
        _ => (st, None),
    }
}

/// Which shape serves a key, with the stored user logic.
pub enum CallKind<H> {
    Immediate(H),
    ExternallyPolled(H),
    ManuallyPolled,
}

enum HandlerKind<H> {
    Immediate(H),
    ExternallyPolled(H, Rendezvous),
    ManuallyPolled(Rendezvous),
}

impl<H> HandlerKind<H> {
    spec fn view_kind(&self) -> CallKind<H> {
        match self {
            HandlerKind::Immediate(h) => CallKind::Immediate(*h),
            HandlerKind::ExternallyPolled(h, _) => CallKind::ExternallyPolled(*h),
            HandlerKind::ManuallyPolled(_) => CallKind::ManuallyPolled,
        }
    }

    spec fn view_stage(&self) -> Stage {
        match self {
            HandlerKind::Immediate(_) => Stage::Idle,
            HandlerKind::ExternallyPolled(_, ch) => ch.view_stage(),
            HandlerKind::ManuallyPolled(ch) => ch.view_stage(),
        }
    }
}

struct CallEntry<H> {
    key: String,
    kind: HandlerKind<H>,
}

struct FileEntry<F> {
    key: String,
    handler: F,
}

spec fn lookup_call<H>(s: Seq<CallEntry<H>>, key: Seq<char>) -> Option<CallEntry<H>>
    decreases s.len(),
{
    if s.len() == 0 {
        None
    } else if s[0].key@ == key {
        Some(s[0])
    } else {
        lookup_call(s.drop_first(), key)
    }
}

spec fn lookup_file<F>(s: Seq<FileEntry<F>>, key: Seq<char>) -> Option<FileEntry<F>>
    decreases s.len(),
{
    if s.len() == 0 {
        None
    } else if s[0].key@ == key {
        Some(s[0])
    } else {
        lookup_file(s.drop_first(), key)
    }
}

spec fn distinct_call_keys<H>(s: Seq<CallEntry<H>>) -> bool {
    forall|a: int, b: int| 0 <= a < b < s.len() ==> s[a].key@ != s[b].key@
}

spec fn distinct_file_keys<F>(s: Seq<FileEntry<F>>) -> bool {
    forall|a: int, b: int| 0 <= a < b < s.len() ==> s[a].key@ != s[b].key@
}

proof fn lemma_lookup_call_none<H>(s: Seq<CallEntry<H>>, key: Seq<char>)
    ensures
        lookup_call(s, key) is None <==> forall|j: int| 0 <= j < s.len() ==> s[j].key@ != key,
    decreases s.len(),
{
    if s.len() > 0 {
        lemma_lookup_call_none(s.drop_first(), key);
        if s[0].key@ != key {
            assert(forall|j: int|
                0 <= j < s.drop_first().len() ==> s.drop_first()[j] == s[j + 1]);
            if lookup_call(s, key) is None {
                assert forall|j: int| 0 <= j < s.len() implies s[j].key@ != key by {
                    if j > 0 {
                        assert(s.drop_first()[j - 1].key@ != key);
                    }
                }
            }
        }
    }
}

proof fn lemma_lookup_call_at<H>(s: Seq<CallEntry<H>>, key: Seq<char>, i: int)
    requires
        0 <= i < s.len(),
        s[i].key@ == key,
        forall|j: int| 0 <= j < i ==> s[j].key@ != key,
    ensures
        lookup_call(s, key) == Some(s[i]),
    decreases s.len(),
{
    if s[0].key@ == key {
        assert(i == 0);
    } else {
        assert(forall|j: int| 0 <= j < s.drop_first().len() ==> s.drop_first()[j] == s[j + 1]);
        lemma_lookup_call_at(s.drop_first(), key, i - 1);
    }
}

proof fn lemma_lookup_call_update<H>(s: Seq<CallEntry<H>>, i: int, e: CallEntry<H>)
    requires
        0 <= i < s.len(),
        e.key@ == s[i].key@,
        forall|j: int| 0 <= j < i ==> s[j].key@ != e.key@,
    ensures
        forall|k: Seq<char>| #[trigger] lookup_call(s.update(i, e), k) == if k == e.key@ {
            Some(e)
        } else {
            lookup_call(s, k)
        },
    decreases s.len(),
{
    let u = s.update(i, e);
    if i == 0 {
        assert forall|k: Seq<char>| #[trigger] lookup_call(u, k) == if k == e.key@ {
            Some(e)
        } else {
            lookup_call(s, k)
        } by {
            assert(u[0] == e);
            if k != e.key@ {
                assert(u.drop_first() =~= s.drop_first());
            }
        }
    } else {
        lemma_lookup_call_update(s.drop_first(), i - 1, e);
        assert forall|k: Seq<char>| #[trigger] lookup_call(u, k) == if k == e.key@ {
            Some(e)
        } else {
            lookup_call(s, k)
        } by {
            assert(u[0] == s[0]);
            assert(u.drop_first() =~= s.drop_first().update(i - 1, e));
            assert(s[0].key@ != e.key@);
            if k != u[0].key@ {
                assert(lookup_call(u, k) == lookup_call(u.drop_first(), k));
                assert(lookup_call(s, k) == lookup_call(s.drop_first(), k));
            }
        }
    }
}

proof fn lemma_lookup_call_push<H>(s: Seq<CallEntry<H>>, e: CallEntry<H>)
    ensures
        forall|k: Seq<char>| #[trigger] lookup_call(s.push(e), k) == if lookup_call(
            s,
            k,
        ) is Some {
            lookup_call(s, k)
        } else if k == e.key@ {
            Some(e)
        } else {
            None::<CallEntry<H>>
        },
    decreases s.len(),
{
    let u = s.push(e);
    if s.len() == 0 {
        assert forall|k: Seq<char>| #[trigger] lookup_call(u, k) == if lookup_call(
            s,
            k,
        ) is Some {
            lookup_call(s, k)
        } else if k == e.key@ {
            Some(e)
        } else {
            None::<CallEntry<H>>
        } by {
            assert(u.len() == 1);
            assert(u[0] == e);
            assert(lookup_call(s, k) is None);
            if k == e.key@ {
                assert(lookup_call(u, k) == Some(e));
            } else {
                assert(lookup_call(u, k) == lookup_call(u.drop_first(), k));
                assert(u.drop_first() =~= Seq::<CallEntry<H>>::empty());
                assert(lookup_call(u.drop_first(), k) is None);
            }
        }
    } else {
        lemma_lookup_call_push(s.drop_first(), e);
        assert forall|k: Seq<char>| #[trigger] lookup_call(u, k) == if lookup_call(
            s,
            k,
        ) is Some {
            lookup_call(s, k)
        } else if k == e.key@ {
            Some(e)
        } else {
            None::<CallEntry<H>>
        } by {
            assert(u[0] == s[0]);
            if k == u[0].key@ {
                assert(lookup_call(u, k) == Some(u[0]));
                assert(lookup_call(s, k) == Some(s[0]));
            } else {
                assert(u.drop_first() =~= s.drop_first().push(e));
                assert(lookup_call(u, k) == lookup_call(u.drop_first(), k));
                assert(lookup_call(s, k) == lookup_call(s.drop_first(), k));
                assert(lookup_call(u.drop_first(), k) == lookup_call(
                    s.drop_first().push(e),
                    k,
                ));
            }
        }
    }
}

proof fn lemma_lookup_file_none<F>(s: Seq<FileEntry<F>>, key: Seq<char>)
    ensures
        lookup_file(s, key) is None <==> forall|j: int| 0 <= j < s.len() ==> s[j].key@ != key,
    decreases s.len(),
{
    if s.len() > 0 {
        lemma_lookup_file_none(s.drop_first(), key);
        if s[0].key@ != key {
            assert(forall|j: int|
                0 <= j < s.drop_first().len() ==> s.drop_first()[j] == s[j + 1]);
            if lookup_file(s, key) is None {
                assert forall|j: int| 0 <= j < s.len() implies s[j].key@ != key by {
                    if j > 0 {
                        assert(s.drop_first()[j - 1].key@ != key);
                    }
                }
            }
        }
    }
}

proof fn lemma_lookup_file_at<F>(s: Seq<FileEntry<F>>, key: Seq<char>, i: int)
    requires
        0 <= i < s.len(),
        s[i].key@ == key,
        forall|j: int| 0 <= j < i ==> s[j].key@ != key,
    ensures
        lookup_file(s, key) == Some(s[i]),
    decreases s.len(),
{
    if s[0].key@ == key {
        assert(i == 0);
    } else {
        assert(forall|j: int| 0 <= j < s.drop_first().len() ==> s.drop_first()[j] == s[j + 1]);
        lemma_lookup_file_at(s.drop_first(), key, i - 1);
    }
}

proof fn lemma_lookup_file_update<F>(s: Seq<FileEntry<F>>, i: int, e: FileEntry<F>)
    requires
        0 <= i < s.len(),
        e.key@ == s[i].key@,
        forall|j: int| 0 <= j < i ==> s[j].key@ != e.key@,
    ensures
        forall|k: Seq<char>| #[trigger] lookup_file(s.update(i, e), k) == if k == e.key@ {
            Some(e)
        } else {
            lookup_file(s, k)
        },
    decreases s.len(),
{
    let u = s.update(i, e);
    if i == 0 {
        assert forall|k: Seq<char>| #[trigger] lookup_file(u, k) == if k == e.key@ {
            Some(e)
        } else {
            lookup_file(s, k)
        } by {
            assert(u[0] == e);
            if k != e.key@ {
                assert(u.drop_first() =~= s.drop_first());
            }
        }
    } else {
        lemma_lookup_file_update(s.drop_first(), i - 1, e);
        assert forall|k: Seq<char>| #[trigger] lookup_file(u, k) == if k == e.key@ {
            Some(e)
        } else {
            lookup_file(s, k)
        } by {
            assert(u[0] == s[0]);
            assert(u.drop_first() =~= s.drop_first().update(i - 1, e));
            assert(s[0].key@ != e.key@);
            if k != u[0].key@ {
                assert(lookup_file(u, k) == lookup_file(u.drop_first(), k));
                assert(lookup_file(s, k) == lookup_file(s.drop_first(), k));
            }
        }
    }
}

proof fn lemma_lookup_file_push<F>(s: Seq<FileEntry<F>>, e: FileEntry<F>)
    ensures
        forall|k: Seq<char>| #[trigger] lookup_file(s.push(e), k) == if lookup_file(
            s,
            k,
        ) is Some {
            lookup_file(s, k)
        } else if k == e.key@ {
            Some(e)
        } else {
            None::<FileEntry<F>>
        },
    decreases s.len(),
{
    let u = s.push(e);
    if s.len() == 0 {
        assert forall|k: Seq<char>| #[trigger] lookup_file(u, k) == if lookup_file(
            s,
            k,
        ) is Some {
            lookup_file(s, k)
        } else if k == e.key@ {
            Some(e)
        } else {
            None::<FileEntry<F>>
        } by {
            assert(u.len() == 1);
            assert(u[0] == e);
            assert(lookup_file(s, k) is None);
            if k == e.key@ {
                assert(lookup_file(u, k) == Some(e));
            } else {
                assert(lookup_file(u, k) == lookup_file(u.drop_first(), k));
                assert(u.drop_first() =~= Seq::<FileEntry<F>>::empty());
                assert(lookup_file(u.drop_first(), k) is None);
            }
        }
    } else {
        lemma_lookup_file_push(s.drop_first(), e);
        assert forall|k: Seq<char>| #[trigger] lookup_file(u, k) == if lookup_file(
            s,
            k,
        ) is Some {
            lookup_file(s, k)
        } else if k == e.key@ {
            Some(e)
        } else {
            None::<FileEntry<F>>
        } by {
            assert(u[0] == s[0]);
            if k == u[0].key@ {
                assert(lookup_file(u, k) == Some(u[0]));
                assert(lookup_file(s, k) == Some(s[0]));
            } else {
                assert(u.drop_first() =~= s.drop_first().push(e));
                assert(lookup_file(u, k) == lookup_file(u.drop_first(), k));
                assert(lookup_file(s, k) == lookup_file(s.drop_first(), k));
                assert(lookup_file(u.drop_first(), k) == lookup_file(
                    s.drop_first().push(e),
                    k,
                ));
            }
        }
    }
}

/// The dispatcher: a call table and a parallel, narrower table for binary
/// file payloads served through the same key-routing convention.
pub struct Rpc<H, F> {
    calls: Vec<CallEntry<H>>,
    get_file_calls: Vec<FileEntry<F>>,
}

/// All call keys other than `key` are served exactly as before.
pub open spec fn preserves_calls_except<H, F>(
    pre: Rpc<H, F>,
    post: Rpc<H, F>,
    key: Seq<char>,
) -> bool {
    forall|k: Seq<char>|
        k != key ==> #[trigger] post.has_call(k) == pre.has_call(k) && (pre.has_call(k)
            ==> post.kind_of(k) == pre.kind_of(k) && post.stage_of(k) == pre.stage_of(k))
}

/// The file table is untouched.
pub open spec fn preserves_files<H, F>(pre: Rpc<H, F>, post: Rpc<H, F>) -> bool {
    forall|k: Seq<char>|
        #[trigger] post.has_file_handler(k) == pre.has_file_handler(k) && (pre.has_file_handler(
            k,
        ) ==> post.file_handler_of(k) == pre.file_handler_of(k))
}

/// The call table is untouched.
pub open spec fn preserves_calls<H, F>(pre: Rpc<H, F>, post: Rpc<H, F>) -> bool {
    forall|k: Seq<char>|
        #[trigger] post.has_call(k) == pre.has_call(k) && (pre.has_call(k) ==> post.kind_of(k)
            == pre.kind_of(k) && post.stage_of(k) == pre.stage_of(k))
}

impl<H, F> Rpc<H, F> {
    /// Keys are registered at most once in each table (a repeated
    /// registration replaces in place).
    pub closed spec fn wf(&self) -> bool {
        distinct_call_keys(self.calls@) && distinct_file_keys(self.get_file_calls@)
    }

    /// Whether a call handler is registered under `key`.
    pub closed spec fn has_call(&self, key: Seq<char>) -> bool {
        lookup_call(self.calls@, key) is Some
    }

    /// The shape and user logic serving `key` (meaningful when registered).
    pub closed spec fn kind_of(&self, key: Seq<char>) -> CallKind<H> {
        lookup_call(self.calls@, key)->Some_0.kind.view_kind()
    }

    /// The rendezvous stage of `key` (idle for immediate handlers).
    pub closed spec fn stage_of(&self, key: Seq<char>) -> Stage {
        lookup_call(self.calls@, key)->Some_0.kind.view_stage()
    }

    /// Whether a file handler is registered under `key`.
    pub closed spec fn has_file_handler(&self, key: Seq<char>) -> bool {
        lookup_file(self.get_file_calls@, key) is Some
    }

    /// The file handler serving `key` (meaningful when registered).
    pub closed spec fn file_handler_of(&self, key: Seq<char>) -> F {
        lookup_file(self.get_file_calls@, key)->Some_0.handler
    }

    pub fn new() -> (r: Rpc<H, F>)
        ensures
            r.wf(),
            forall|k: Seq<char>| !(#[trigger] r.has_call(k)),
            forall|k: Seq<char>| !(#[trigger] r.has_file_handler(k)),
    {
        Rpc { calls: Vec::new(), get_file_calls: Vec::new() }
    }

    /// The index of the entry serving `key`, if any.
    fn find_call(&self, key: &str) -> (r: Option<usize>)
        ensures
            match r {
                Some(i) => i < self.calls@.len() && self.calls@[i as int].key@ == key@
                    && lookup_call(self.calls@, key@) == Some(self.calls@[i as int]),
                None => !self.has_call(key@),
            },
    {
        let mut i: usize = 0;
        while i < self.calls.len()
            invariant
                i <= self.calls@.len(),
                forall|j: int| 0 <= j < i ==> self.calls@[j].key@ != key@,
            decreases self.calls@.len() - i,
        {
            if str_eq(self.calls[i].key.as_str(), key) {
                proof {
                    lemma_lookup_call_at(self.calls@, key@, i as int);
                }
                return Some(i);
            }
            i = i + 1;
        }
        proof {
            lemma_lookup_call_none(self.calls@, key@);
        }
        None
    }

    /// The index of the file entry serving `key`, if any.
    fn find_file(&self, key: &str) -> (r: Option<usize>)
        ensures
            match r {
                Some(i) => i < self.get_file_calls@.len() && self.get_file_calls@[i as int].key@
                    == key@ && lookup_file(self.get_file_calls@, key@) == Some(
                    self.get_file_calls@[i as int],
                ),
                None => !self.has_file_handler(key@),
            },
    {
        let mut i: usize = 0;
        while i < self.get_file_calls.len()
            invariant
                i <= self.get_file_calls@.len(),
                forall|j: int| 0 <= j < i ==> self.get_file_calls@[j].key@ != key@,
            decreases self.get_file_calls@.len() - i,
        {
            if str_eq(self.get_file_calls[i].key.as_str(), key) {
                proof {
                    lemma_lookup_file_at(self.get_file_calls@, key@, i as int);
                }
                return Some(i);
            }
            i = i + 1;
        }
        proof {
            lemma_lookup_file_none(self.get_file_calls@, key@);
        }
        None
    }

    /// Binds `kind` to `key`, replacing any previous registration.
    fn set_entry(&mut self, key: &str, kind: HandlerKind<H>)
        requires
            old(self).wf(),
        ensures
            final(self).wf(),
            final(self).has_call(key@),
            final(self).kind_of(key@) == kind.view_kind(),
            final(self).stage_of(key@) == kind.view_stage(),
            preserves_calls_except(*old(self), *final(self), key@),
            preserves_files(*old(self), *final(self)),
    {
        let ghost pre = self.calls@;
        let entry = CallEntry { key: key.to_owned(), kind };
        match self.find_call(key) {
            Some(i) => {
                proof {
                    lemma_lookup_call_none(pre, key@);
                }
                let _old_entry = self.calls.remove(i);
                self.calls.insert(i, entry);
                proof {
                    assert(self.calls@ =~= pre.update(i as int, self.calls@[i as int]));
                    assert forall|j: int| 0 <= j < i implies pre[j].key@ != key@ by {
                        if pre[j].key@ == key@ {
                            assert(pre[j].key@ == pre[i as int].key@);
                        }
                    }
                    lemma_lookup_call_update(pre, i as int, self.calls@[i as int]);
                    assert(distinct_call_keys(self.calls@));
                }
            },
            None => {
                proof {
                    lemma_lookup_call_none(pre, key@);
                }
                self.calls.push(entry);
                proof {
                    lemma_lookup_call_push(pre, self.calls@[pre.len() as int]);
                    assert forall|a: int, b: int|
                        0 <= a < b < self.calls@.len() implies self.calls@[a].key@
                        != self.calls@[b].key@ by {
                        if b == pre.len() as int {
                            assert(pre[a].key@ != key@);
                        }
                    }
                }
            },
        }
    }

    /// Registers an immediate (fire-and-compute) handler for `key`: inbound
    /// calls are answered on the calling thread with the handler's output.
    /// A previous registration for `key` is silently replaced.
    pub fn on_generic_call_fn(&mut self, key: &str, handler: H)
        requires
            old(self).wf(),
        ensures
            final(self).wf(),
            final(self).has_call(key@),
            final(self).kind_of(key@) == CallKind::Immediate(handler),
            final(self).stage_of(key@) == Stage::Idle,
            preserves_calls_except(*old(self), *final(self), key@),
            preserves_files(*old(self), *final(self)),
    {
        self.set_entry(key, HandlerKind::Immediate(handler));
    }

    /// Registers an externally-polled handler for `key` and returns the
    /// driver's capability. The user logic runs only when the driver's
    /// non-blocking step is invoked; callers block on the key's rendezvous
    /// pair, which starts idle.
    pub fn on_generic_call_async(&mut self, key: &str, handler: H) -> (driver: AsyncHandler)
        requires
            old(self).wf(),
        ensures
            final(self).wf(),
            final(self).has_call(key@),
            final(self).kind_of(key@) == CallKind::ExternallyPolled(handler),
            final(self).stage_of(key@) == Stage::Idle,
            preserves_calls_except(*old(self), *final(self), key@),
            preserves_files(*old(self), *final(self)),
            driver.key_view() == key@,
    {
        self.set_entry(key, HandlerKind::ExternallyPolled(handler, Rendezvous::Idle));
        AsyncHandler { key: key.to_owned() }
    }

    /// Registers a manually-polled key and returns the receiver capability:
    /// the registering code itself takes requests and pushes responses.
    /// The key's rendezvous pair starts idle.
    pub fn get_generic_call_async_receiver(&mut self, key: &str) -> (receiver:
        RequestAsyncReceiver)
        requires
            old(self).wf(),
        ensures
            final(self).wf(),
            final(self).has_call(key@),
            final(self).kind_of(key@) == CallKind::<H>::ManuallyPolled,
            final(self).stage_of(key@) == Stage::Idle,
            preserves_calls_except(*old(self), *final(self), key@),
            preserves_files(*old(self), *final(self)),
            receiver.key_view() == key@,
    {
        self.set_entry(key, HandlerKind::ManuallyPolled(Rendezvous::Idle));
        RequestAsyncReceiver { key: key.to_owned() }
    }

    /// Registers a binary file handler for `key`, replacing any previous one.
    pub fn add_get_file_handler(&mut self, key: &str, handler: F)
        requires
            old(self).wf(),
        ensures
            final(self).wf(),
            final(self).has_file_handler(key@),
            final(self).file_handler_of(key@) == handler,
            preserves_calls(*old(self), *final(self)),
            forall|k: Seq<char>|
                k != key@ ==> #[trigger] final(self).has_file_handler(k)
                    == old(self).has_file_handler(k) && (old(self).has_file_handler(k)
                    ==> final(self).file_handler_of(k) == old(self).file_handler_of(k)),
    {
        let ghost pre = self.get_file_calls@;
        let entry = FileEntry { key: key.to_owned(), handler };
        match self.find_file(key) {
            Some(i) => {
                let _old_entry = self.get_file_calls.remove(i);
                self.get_file_calls.insert(i, entry);
                proof {
                    assert(self.get_file_calls@ =~= pre.update(
                        i as int,
                        self.get_file_calls@[i as int],
                    ));
                    assert forall|j: int| 0 <= j < i implies pre[j].key@ != key@ by {
                        if pre[j].key@ == key@ {
                            assert(pre[j].key@ == pre[i as int].key@);
                        }
                    }
                    lemma_lookup_file_update(pre, i as int, self.get_file_calls@[i as int]);
                    assert(distinct_file_keys(self.get_file_calls@));
                }
            },
            None => {
                proof {
                    lemma_lookup_file_none(pre, key@);
                }
                self.get_file_calls.push(entry);
                proof {
                    lemma_lookup_file_push(pre, self.get_file_calls@[pre.len() as int]);
                    assert forall|a: int, b: int|
                        0 <= a < b < self.get_file_calls@.len() implies self.get_file_calls@[a].key@
                        != self.get_file_calls@[b].key@ by {
                        if b == pre.len() as int {
                            assert(pre[a].key@ != key@);
                        }
                    }
                }
            },
        }
    }
}

/// The synchronous outcome of a raw call.
#[derive(Debug, PartialEq)]
pub enum CallOutcome {
    /// The call completed on the calling thread: the payload is the
    /// handler's output, or the neutral `"{ }"` for an unknown key.
    Done(String),
    /// The immediate handler could not decode the input; the failure is
    /// fatal for this call.
    Fatal,
    /// The key is bridged: the request was enqueued on its rendezvous pair
    /// and the caller is blocked until a driver answers (`take_response`).
    Enqueued,
    /// The key is bridged and its pair is engaged by an earlier call whose
    /// round trip has not completed; the caller is blocked before even
    /// enqueuing, so the pending request is not disturbed.
    Busy,
}

/// What a raw call answers synchronously: the neutral empty object for an
/// unknown key; the immediate handler's output for a known immediate key,
/// or nothing when the handler cannot decode the input; and nothing (yet)
/// for a key bridged to an asynchronous handler.
pub open spec fn raw_reply<H: CallHandler, F>(
    rpc: Rpc<H, F>,
    key: Seq<char>,
    input: Seq<char>,
) -> Option<Seq<char>> {
    if !rpc.has_call(key) {
        Some("{ }"@)
    } else {
        match rpc.kind_of(key) {
            CallKind::Immediate(h) => if h.accepts(input) {
                Some(h.output(input))
            } else {
                None
            },
            _ => None,
        }
    }
}

impl<H, F> Rpc<H, F> {
    /// Puts the entry for `pre[i].key` back at position `i` after it was
    /// taken out for inspection, with a possibly updated kind.
    fn put_back(&mut self, i: usize, entry: CallEntry<H>, Ghost(pre): Ghost<Seq<CallEntry<H>>>)
        requires
            distinct_call_keys(pre),
            i < pre.len(),
            entry.key@ == pre[i as int].key@,
            old(self).calls@ == pre.remove(i as int),
        ensures
            final(self).get_file_calls@ == old(self).get_file_calls@,
            distinct_call_keys(final(self).calls@),
            forall|k: Seq<char>| #[trigger] lookup_call(final(self).calls@, k) == if k
                == entry.key@ {
                Some(entry)
            } else {
                lookup_call(pre, k)
            },
    {
        self.calls.insert(i, entry);
        proof {
            assert(self.calls@ =~= pre.update(i as int, entry));
            assert forall|j: int| 0 <= j < i implies pre[j].key@ != entry.key@ by {
                assert(pre[j].key@ != pre[i as int].key@);
            }
            lemma_lookup_call_update(pre, i as int, entry);
            assert forall|a: int, b: int|
                0 <= a < b < self.calls@.len() implies self.calls@[a].key@
                != self.calls@[b].key@ by {
                assert(pre[a].key@ != pre[b].key@);
            }
        }
    }
}

impl<H: CallHandler, F> Rpc<H, F> {
    /// Routes one raw call. An unknown key is answered with the neutral
    /// empty-object payload, never an error. A key served by an immediate
    /// handler is answered on the calling thread (or fails fatally when the
    /// handler cannot decode the input). A key bridged to an asynchronous
    /// handler has the request enqueued on its rendezvous pair if the pair
    /// is idle; otherwise the pair — in particular a pending request — is
    /// left untouched and the caller must wait for the earlier round trip
    /// to complete.
    pub fn call_raw(&mut self, key: &str, input_data: &str) -> (r: CallOutcome)
        requires
            old(self).wf(),
        ensures
            final(self).wf(),
            preserves_calls_except(*old(self), *final(self), key@),
            preserves_files(*old(self), *final(self)),
            final(self).has_call(key@) == old(self).has_call(key@),
            old(self).has_call(key@) ==> final(self).kind_of(key@) == old(self).kind_of(key@),
            !old(self).has_call(key@) ==> (r matches CallOutcome::Done(s) && s@ == "{ }"@),
            match r {
                CallOutcome::Done(s) => raw_reply(*old(self), key@, input_data@) == Some(s@),
                _ => true,
            },
            old(self).has_call(key@) ==> match old(self).kind_of(key@) {
                CallKind::Immediate(h) => {
                    &&& final(self).stage_of(key@) == old(self).stage_of(key@)
                    &&& match r {
                        CallOutcome::Done(s) => h.accepts(input_data@) && s@ == h.output(
                            input_data@,
                        ),
                        CallOutcome::Fatal => !h.accepts(input_data@),
                        _ => false,
                    }
                },
                _ => {
                    &&& final(self).stage_of(key@) == offer_stage(
                        old(self).stage_of(key@),
                        input_data@,
                    ).0
                    &&& (r is Enqueued <==> offer_stage(
                        old(self).stage_of(key@),
                        input_data@,
                    ).1)
                    &&& (r is Enqueued || r is Busy)
                },
            },
    {
        let found = self.find_call(key);
        match found {
            None => CallOutcome::Done("{ }".to_owned()),
            Some(i) => {
                let ghost pre = self.calls@;
                let entry = self.calls.remove(i);
                let CallEntry { key: stored_key, kind } = entry;
                match kind {
                    HandlerKind::Immediate(h) => {
                        let res = h.handle(input_data);
                        self.put_back(
                            i,
                            CallEntry { key: stored_key, kind: HandlerKind::Immediate(h) },
                            Ghost(pre),
                        );
                        match res {
                            Ok(out) => CallOutcome::Done(out),
                            Err(_) => CallOutcome::Fatal,
                        }
                    },
                    HandlerKind::ExternallyPolled(h, ch) => match ch {
                        Rendezvous::Idle => {
                            let request = input_data.to_owned();
                            self.put_back(
                                i,
                                CallEntry {
                                    key: stored_key,
                                    kind: HandlerKind::ExternallyPolled(
                                        h,
                                        Rendezvous::Requested(request),
                                    ),
                                },
                                Ghost(pre),
                            );
                            CallOutcome::Enqueued
                        },
                        busy_ch => {
                            self.put_back(
                                i,
                                CallEntry {
                                    key: stored_key,
                                    kind: HandlerKind::ExternallyPolled(h, busy_ch),
                                },
                                Ghost(pre),
                            );
                            CallOutcome::Busy
                        },
                    },
                    HandlerKind::ManuallyPolled(ch) => match ch {
                        Rendezvous::Idle => {
                            let request = input_data.to_owned();
                            self.put_back(
                                i,
                                CallEntry {
                                    key: stored_key,
                                    kind: HandlerKind::ManuallyPolled(
                                        Rendezvous::Requested(request),
                                    ),
                                },
                                Ghost(pre),
                            );
                            CallOutcome::Enqueued
                        },
                        busy_ch => {
                            self.put_back(
                                i,
                                CallEntry {
                                    key: stored_key,
                                    kind: HandlerKind::ManuallyPolled(busy_ch),
                                },
                                Ghost(pre),
                            );
                            CallOutcome::Busy
                        },
                    },
                }
            },
        }
    }

    /// Collects the response of a completed asynchronous round trip for
    /// `key`: an answered rendezvous pair hands its response out exactly
    /// once and returns to idle; in every other state nothing is returned
    /// and nothing changes. This is the step a blocked caller repeats after
    /// its request was enqueued.
    pub fn take_response(&mut self, key: &str) -> (r: Option<String>)
        requires
            old(self).wf(),
        ensures
            final(self).wf(),
            preserves_calls_except(*old(self), *final(self), key@),
            preserves_files(*old(self), *final(self)),
            final(self).has_call(key@) == old(self).has_call(key@),
            old(self).has_call(key@) ==> final(self).kind_of(key@) == old(self).kind_of(key@),
            !old(self).has_call(key@) ==> r is None,
            old(self).has_call(key@) ==> {
                let st = take_stage(old(self).stage_of(key@));
                &&& final(self).stage_of(key@) == st.0
                &&& match r {
                    Some(out) => st.1 == Some(out@),
                    None => st.1 is None,
                }
            },
    {
        let found = self.find_call(key);
        match found {
            None => None,
            Some(i) => {
                let ghost pre = self.calls@;
                let entry = self.calls.remove(i);
                let CallEntry { key: stored_key, kind } = entry;
                match kind {
                    HandlerKind::Immediate(h) => {
                        self.put_back(
                            i,
                            CallEntry { key: stored_key, kind: HandlerKind::Immediate(h) },
                            Ghost(pre),
                        );
                        None
                    },
                    HandlerKind::ExternallyPolled(h, ch) => match ch {
                        Rendezvous::Answered(out) => {
                            self.put_back(
                                i,
                                CallEntry {
                                    key: stored_key,
                                    kind: HandlerKind::ExternallyPolled(h, Rendezvous::Idle),
                                },
                                Ghost(pre),
                            );
                            Some(out)
                        },
                        other_ch => {
                            self.put_back(
                                i,
                                CallEntry {
                                    key: stored_key,
                                    kind: HandlerKind::ExternallyPolled(h, other_ch),
                                },
                                Ghost(pre),
                            );
                            None
                        },
                    },
                    HandlerKind::ManuallyPolled(ch) => match ch {
                        Rendezvous::Answered(out) => {
                            self.put_back(
                                i,
                                CallEntry {
                                    key: stored_key,
                                    kind: HandlerKind::ManuallyPolled(Rendezvous::Idle),
                                },
                                Ghost(pre),
                            );
                            Some(out)
                        },
                        other_ch => {
                            self.put_back(
                                i,
                                CallEntry {
                                    key: stored_key,
                                    kind: HandlerKind::ManuallyPolled(other_ch),
                                },
                                Ghost(pre),
                            );
                            None
                        },
                    },
                }
            },
        }
    }
}

impl<H, F: FileHandler> Rpc<H, F> {
    /// Looks up the file handler for `key` and runs it on `path`. An
    /// unregistered key is answered with an empty byte sequence rather than
    /// an error; a registered handler's read failure surfaces as `NotFound`.
    pub fn get_file(&self, key: &str, path: &str) -> (r: Result<Vec<u8>, FileError>)
        ensures
            !self.has_file_handler(key@) ==> (r matches Ok(v) && v@ == Seq::<u8>::empty()),
            self.has_file_handler(key@) ==> {
                let fh = self.file_handler_of(key@);
                match r {
                    Ok(bytes) => fh.found(path@) && bytes@ == fh.content(path@),
                    Err(_) => !fh.found(path@),
                }
            },
    {
        let found = self.find_file(key);
        match found {
            Some(i) => self.get_file_calls[i].handler.fetch(path),
            None => Ok(Vec::new()),
        }
    }
}

/// The driver's capability for one externally-polled key.
pub struct AsyncHandler {
    key: String,
}

impl AsyncHandler {
    /// The key this driver serves.
    pub closed spec fn key_view(&self) -> Seq<char> {
        self.key@
    }

    /// The driver's non-blocking step: drains one pending request if there
    /// is one, runs the user logic, and publishes the response for the
    /// blocked caller to collect. Returns whether a request was handled;
    /// fails exactly when a pending request could not be decoded — that
    /// call is abandoned and the pair returns to idle.
    pub fn try_handle<H: CallHandler, F>(&self, rpc: &mut Rpc<H, F>) -> (r: Result<
        bool,
        CallError,
    >)
        requires
            old(rpc).wf(),
            old(rpc).has_call(self.key_view()),
            old(rpc).kind_of(self.key_view()) is ExternallyPolled,
        ensures
            final(rpc).wf(),
            preserves_calls_except(*old(rpc), *final(rpc), self.key_view()),
            preserves_files(*old(rpc), *final(rpc)),
            final(rpc).has_call(self.key_view()),
            final(rpc).kind_of(self.key_view()) == old(rpc).kind_of(self.key_view()),
            ({
                let h = old(rpc).kind_of(self.key_view())->ExternallyPolled_0;
                match old(rpc).stage_of(self.key_view()) {
                    Stage::Requested(x) => {
                        &&& final(rpc).stage_of(self.key_view()) == drive_stage(
                            Stage::Requested(x),
                            h.accepts(x),
                            h.output(x),
                        )
                        &&& (h.accepts(x) ==> r == Ok::<bool, CallError>(true))
                        &&& (!h.accepts(x) ==> r == Err::<bool, CallError>(
                            CallError::InvalidInput,
                        ))
                    },
                    st => final(rpc).stage_of(self.key_view()) == st && r == Ok::<
                        bool,
                        CallError,
                    >(false),
                }
            }),
    {
        let found = rpc.find_call(self.key.as_str());
        match found {
            None => {
                proof {
                    assert(false);
                }
                Ok(false)
            },
            Some(i) => {
                let ghost pre = rpc.calls@;
                let entry = rpc.calls.remove(i);
                let CallEntry { key: stored_key, kind } = entry;
                match kind {
                    HandlerKind::ExternallyPolled(h, ch) => match ch {
                        Rendezvous::Requested(request) => {
                            let res = h.handle(request.as_str());
                            match res {
                                Ok(out) => {
                                    rpc.put_back(
                                        i,
                                        CallEntry {
                                            key: stored_key,
                                            kind: HandlerKind::ExternallyPolled(
                                                h,
                                                Rendezvous::Answered(out),
                                            ),
                                        },
                                        Ghost(pre),
                                    );
                                    Ok(true)
                                },
                                Err(e) => {
                                    rpc.put_back(
                                        i,
                                        CallEntry {
                                            key: stored_key,
                                            kind: HandlerKind::ExternallyPolled(
                                                h,
                                                Rendezvous::Idle,
                                            ),
                                        },
                                        Ghost(pre),
                                    );
                                    Err(e)
                                },
                            }
                        },
                        other_ch => {
                            rpc.put_back(
                                i,
                                CallEntry {
                                    key: stored_key,
                                    kind: HandlerKind::ExternallyPolled(h, other_ch),
                                },
                                Ghost(pre),
                            );
                            Ok(false)
                        },
                    },
                    HandlerKind::Immediate(h) => {
                        proof {
                            assert(false);
                        }
                        rpc.put_back(
                            i,
                            CallEntry { key: stored_key, kind: HandlerKind::Immediate(h) },
                            Ghost(pre),
                        );
                        Ok(false)
                    },
                    HandlerKind::ManuallyPolled(ch) => {
                        proof {
                            assert(false);
                        }
                        rpc.put_back(
                            i,
                            CallEntry { key: stored_key, kind: HandlerKind::ManuallyPolled(ch) },
                            Ghost(pre),
                        );
                        Ok(false)
                    },
                }
            },
        }
    }
}

/// The owner's capability for one manually-polled key.
pub struct RequestAsyncReceiver {
    key: String,
}

impl RequestAsyncReceiver {
    /// The key this receiver serves.
    pub closed spec fn key_view(&self) -> Seq<char> {
        self.key@
    }

    /// Takes one pending request, if any, marking the pair as awaiting a
    /// response. Nothing else is disturbed.
    pub fn try_receive<H, F>(&self, rpc: &mut Rpc<H, F>) -> (r: Option<String>)
        requires
            old(rpc).wf(),
            old(rpc).has_call(self.key_view()),
            old(rpc).kind_of(self.key_view()) is ManuallyPolled,
        ensures
            final(rpc).wf(),
            preserves_calls_except(*old(rpc), *final(rpc), self.key_view()),
            preserves_files(*old(rpc), *final(rpc)),
            final(rpc).has_call(self.key_view()),
            final(rpc).kind_of(self.key_view()) == old(rpc).kind_of(self.key_view()),
            ({
                let st = receive_stage(old(rpc).stage_of(self.key_view()));
                &&& final(rpc).stage_of(self.key_view()) == st.0
                &&& match r {
                    Some(request) => st.1 == Some(request@),
                    None => st.1 is None,
                }
            }),
    {
        let found = rpc.find_call(self.key.as_str());
        match found {
            None => {
                proof {
                    assert(false);
                }
                None
            },
            Some(i) => {
                let ghost pre = rpc.calls@;
                let entry = rpc.calls.remove(i);
                let CallEntry { key: stored_key, kind } = entry;
                match kind {
                    HandlerKind::ManuallyPolled(ch) => match ch {
                        Rendezvous::Requested(request) => {
                            rpc.put_back(
                                i,
                                CallEntry {
                                    key: stored_key,
                                    kind: HandlerKind::ManuallyPolled(Rendezvous::Taken),
                                },
                                Ghost(pre),
                            );
                            Some(request)
                        },
                        other_ch => {
                            rpc.put_back(
                                i,
                                CallEntry {
                                    key: stored_key,
                                    kind: HandlerKind::ManuallyPolled(other_ch),
                                },
                                Ghost(pre),
                            );
                            None
                        },
                    },
                    other_kind => {
                        proof {
                            assert(false);
                        }
                        rpc.put_back(
                            i,
                            CallEntry { key: stored_key, kind: other_kind },
                            Ghost(pre),
                        );
                        None
                    },
                }
            },
        }
    }

    /// Publishes the response for the request taken earlier; the blocked
    /// caller collects it through `take_response`. Only legal while a taken
    /// request is awaiting its answer.
    pub fn send_response<H, F>(&self, rpc: &mut Rpc<H, F>, response: String)
        requires
            old(rpc).wf(),
            old(rpc).has_call(self.key_view()),
            old(rpc).kind_of(self.key_view()) is ManuallyPolled,
            old(rpc).stage_of(self.key_view()) is Taken,
        ensures
            final(rpc).wf(),
            preserves_calls_except(*old(rpc), *final(rpc), self.key_view()),
            preserves_files(*old(rpc), *final(rpc)),
            final(rpc).has_call(self.key_view()),
            final(rpc).kind_of(self.key_view()) == old(rpc).kind_of(self.key_view()),
            final(rpc).stage_of(self.key_view()) == Stage::Answered(response@),
    {
        let found = rpc.find_call(self.key.as_str());
        match found {
            None => {
                proof {
                    assert(false);
                }
            },
            Some(i) => {
                let ghost pre = rpc.calls@;
                let entry = rpc.calls.remove(i);
                let CallEntry { key: stored_key, kind } = entry;
                match kind {
                    HandlerKind::ManuallyPolled(_) => {
                        rpc.put_back(
                            i,
                            CallEntry {
                                key: stored_key,
                                kind: HandlerKind::ManuallyPolled(
                                    Rendezvous::Answered(response),
                                ),
                            },
                            Ghost(pre),
                        );
                    },
                    other_kind => {
                        proof {
                            assert(false);
                        }
                        rpc.put_back(
                            i,
                            CallEntry { key: stored_key, kind: other_kind },
                            Ghost(pre),
                        );
                    },
                }
            },
        }
    }

    /// Whether a request was taken but not yet answered: lets the owner
    /// avoid re-entrant takes.
    pub fn is_pending_response<H, F>(&self, rpc: &Rpc<H, F>) -> (r: bool)
        requires
            rpc.has_call(self.key_view()),
        ensures
            r == (rpc.stage_of(self.key_view()) is Taken),
    {
        let found = rpc.find_call(self.key.as_str());
        match found {
            None => {
                proof {
                    assert(false);
                }
                false
            },
            Some(i) => {
                match &rpc.calls[i].kind {
                    HandlerKind::ManuallyPolled(ch) => match ch {
                        Rendezvous::Taken => true,
                        _ => false,
                    },
                    HandlerKind::ExternallyPolled(_, ch) => match ch {
                        Rendezvous::Taken => true,
                        _ => false,
                    },
                    HandlerKind::Immediate(_) => false,
                }
            },
        }
    }
}

/// The restricted facade a transport adapter uses: raw call invocation,
/// response collection, and file fetches, without the dispatcher's
/// registration API or its concrete type. The facade owns the dispatcher,
/// so all registration finishes before the facade exists.
pub struct RpcGate<H, F> {
    rpc: Rpc<H, F>,
}

impl<H, F> RpcGate<H, F> {
    /// The dispatcher behind the facade.
    pub closed spec fn inner(&self) -> Rpc<H, F> {
        self.rpc
    }

    pub fn new(rpc: Rpc<H, F>) -> (r: RpcGate<H, F>)
        ensures
            r.inner() == rpc,
    {
        RpcGate { rpc }
    }
}

impl<H: CallHandler, F> RpcGate<H, F> {
    /// Routes one raw call; see [`Rpc::call_raw`].
    pub fn call_raw(&mut self, key: &str, input_data: &str) -> (r: CallOutcome)
        requires
            old(self).inner().wf(),
        ensures
            final(self).inner().wf(),
            preserves_calls_except(old(self).inner(), final(self).inner(), key@),
            preserves_files(old(self).inner(), final(self).inner()),
            final(self).inner().has_call(key@) == old(self).inner().has_call(key@),
            old(self).inner().has_call(key@) ==> final(self).inner().kind_of(key@) == old(
                self,
            ).inner().kind_of(key@),
            !old(self).inner().has_call(key@) ==> (r matches CallOutcome::Done(s) && s@
                == "{ }"@),
            match r {
                CallOutcome::Done(s) => raw_reply(old(self).inner(), key@, input_data@) == Some(
                    s@,
                ),
                _ => true,
            },
            old(self).inner().has_call(key@) ==> match old(self).inner().kind_of(key@) {
                CallKind::Immediate(h) => {
                    &&& final(self).inner().stage_of(key@) == old(self).inner().stage_of(key@)
                    &&& match r {
                        CallOutcome::Done(s) => h.accepts(input_data@) && s@ == h.output(
                            input_data@,
                        ),
                        CallOutcome::Fatal => !h.accepts(input_data@),
                        _ => false,
                    }
                },
                _ => {
                    &&& final(self).inner().stage_of(key@) == offer_stage(
                        old(self).inner().stage_of(key@),
                        input_data@,
                    ).0
                    &&& (r is Enqueued <==> offer_stage(
                        old(self).inner().stage_of(key@),
                        input_data@,
                    ).1)
                    &&& (r is Enqueued || r is Busy)
                },
            },
    {
        self.rpc.call_raw(key, input_data)
    }

    /// Collects a completed round trip's response; see [`Rpc::take_response`].
    pub fn take_response(&mut self, key: &str) -> (r: Option<String>)
        requires
            old(self).inner().wf(),
        ensures
            final(self).inner().wf(),
            preserves_calls_except(old(self).inner(), final(self).inner(), key@),
            preserves_files(old(self).inner(), final(self).inner()),
            final(self).inner().has_call(key@) == old(self).inner().has_call(key@),
            old(self).inner().has_call(key@) ==> final(self).inner().kind_of(key@) == old(
                self,
            ).inner().kind_of(key@),
            !old(self).inner().has_call(key@) ==> r is None,
            old(self).inner().has_call(key@) ==> {
                let st = take_stage(old(self).inner().stage_of(key@));
                &&& final(self).inner().stage_of(key@) == st.0
                &&& match r {
                    Some(out) => st.1 == Some(out@),
                    None => st.1 is None,
                }
            },
    {
        self.rpc.take_response(key)
    }
}

impl<H, F: FileHandler> RpcGate<H, F> {
    /// Serves one binary fetch; see [`Rpc::get_file`].
    pub fn get_file(&self, key: &str, path: &str) -> (r: Result<Vec<u8>, FileError>)
        ensures
            !self.inner().has_file_handler(key@) ==> (r matches Ok(v) && v@
                == Seq::<u8>::empty()),
            self.inner().has_file_handler(key@) ==> {
                let fh = self.inner().file_handler_of(key@);
                match r {
                    Ok(bytes) => fh.found(path@) && bytes@ == fh.content(path@),
                    Err(_) => !fh.found(path@),
                }
            },
    {
        self.rpc.get_file(key, path)
    }
}

/// Sync call round-trip: a key served by immediate handler `h` answers any
/// input `x` that `h` accepts with exactly `h`'s output for `x`.
pub proof fn lemma_sync_round_trip<H: CallHandler, F>(
    rpc: Rpc<H, F>,
    h: H,
    key: Seq<char>,
    x: Seq<char>,
)
    requires
        rpc.has_call(key),
        rpc.kind_of(key) == CallKind::Immediate(h),
        h.accepts(x),
    ensures
        raw_reply(rpc, key, x) == Some(h.output(x)),
{
}

/// Unknown key default: a call for a key that was never registered is
/// answered with the neutral empty-object payload, not an error.
pub proof fn lemma_unknown_key_neutral<H: CallHandler, F>(
    rpc: Rpc<H, F>,
    key: Seq<char>,
    x: Seq<char>,
)
    requires
        !rpc.has_call(key),
    ensures
        raw_reply(rpc, key, x) == Some("{ }"@),
{
}

/// Async bridge correctness: starting from an idle rendezvous pair, a call
/// enqueues its request; collecting before any driver step yields nothing;
/// after one driver step the caller collects exactly the handler's output
/// for its request — and collects it exactly once, since a second collect
/// finds the pair idle again.
pub proof fn lemma_async_bridge_round_trip<H: CallHandler>(h: H, x: Seq<char>)
    requires
        h.accepts(x),
    ensures
        ({
            let offered = offer_stage(Stage::Idle, x);
            let driven = drive_stage(offered.0, h.accepts(x), h.output(x));
            let first = take_stage(driven);
            let second = take_stage(first.0);
            &&& offered.1
            &&& take_stage(offered.0).1 is None
            &&& first.1 == Some(h.output(x))
            &&& first.0 is Idle
            &&& second.1 is None
        }),
{
}

/// Async serialization: while a call is in flight (the pair is not idle), a
/// second call does not enqueue — the pair, and in particular a pending
/// request that no poller has taken yet, is left exactly as it was.
pub proof fn lemma_async_calls_serialized(st: Stage, x: Seq<char>)
    requires
        !(st is Idle),
    ensures
        offer_stage(st, x) == (st, false),
{
}

/// The neutral data shape: used for requests or responses that carry no
/// information.
pub struct EmptyData {
    pub value: Option<i32>,
}

impl EmptyData {
    pub fn new() -> (r: EmptyData)
        ensures
            r.value == None::<i32>,
    {
        EmptyData { value: None }
    }
}

} // verus!
