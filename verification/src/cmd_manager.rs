//! The operator command registry: named commands with described, typed
//! arguments, built through small builders and dispatched by name. The
//! argument values of one invocation travel in an [`ArgsList`], a typed
//! bag keyed by argument name.

use vstd::prelude::*;

use crate::table::assoc_distinct;
use crate::table::assoc_lookup;
use crate::table::lemma_assoc_at;
use crate::table::lemma_assoc_distinct_push;
use crate::table::lemma_assoc_distinct_update;
use crate::table::lemma_assoc_none;
use crate::table::lemma_assoc_push;
use crate::table::lemma_assoc_update;
use crate::text::str_eq;

verus! {

/// The type of one command argument.
#[derive(Clone, Copy, Debug, PartialEq, Eq, Structural)]
#[allow(non_camel_case_types)]
pub enum ArgType {
    U64,
    BOOL,
    STRING,
}

/// The description of one command argument.
#[derive(Clone, Debug)]
pub struct ArgDescription {
    pub call_name: String,
    pub description: Option<String>,
    pub arg_type: ArgType,
}

/// The description of one command: its call name and its arguments, keyed
/// by argument call name (each name described at most once).
#[derive(Clone, Debug)]
pub struct CmdDescription {
    pub call_name: String,
    pub description: Option<String>,
    pub args: Vec<ArgDescription>,
}

impl CmdDescription {
    /// The argument descriptions as a keyed table.
    pub open spec fn args_assoc(&self) -> Seq<(Seq<char>, ArgDescription)> {
        Seq::new(self.args@.len(), |i: int| (self.args@[i].call_name@, self.args@[i]))
    }

    /// Each argument name is described at most once.
    pub open spec fn args_wf(&self) -> bool {
        assoc_distinct(self.args_assoc())
    }
}

/// The error of dispatching a command name that was never registered.
#[derive(Debug, PartialEq, Eq, Structural, Clone, Copy)]
pub enum CmdError {
    UnknownCommand,
}

/// Builds a command description: call name first, then an optional free-text
/// description and any number of argument descriptions.
pub struct CmdBuilder {
    description: CmdDescription,
}

impl CmdBuilder {
    /// The description built so far.
    pub closed spec fn desc(&self) -> CmdDescription {
        self.description
    }

    pub fn new(call_name: &str) -> (r: CmdBuilder)
        ensures
            r.desc().call_name@ == call_name@,
            r.desc().description is None,
            r.desc().args@ == Seq::<ArgDescription>::empty(),
            r.desc().args_wf(),
    {
        let r = CmdBuilder {
            description: CmdDescription {
                call_name: call_name.to_owned(),
                description: None,
                args: Vec::new(),
            },
        };
        proof {
            assert(r.desc().args_assoc() =~= Seq::<(Seq<char>, ArgDescription)>::empty());
        }
        r
    }

    pub fn add_description(self, description: &str) -> (r: CmdBuilder)
        ensures
            r.desc().call_name == self.desc().call_name,
            r.desc().args == self.desc().args,
            r.desc().description matches Some(d) && d@ == description@,
    {
        let CmdBuilder { description: mut desc } = self;
        desc.description = Some(description.to_owned());
        CmdBuilder { description: desc }
    }

    /// Adds (or replaces, keyed by the argument's call name) one argument
    /// description.
    pub fn add_arg(self, arg: ArgDescription) -> (r: CmdBuilder)
        requires
            self.desc().args_wf(),
        ensures
            r.desc().args_wf(),
            r.desc().call_name == self.desc().call_name,
            r.desc().description == self.desc().description,
            forall|k: Seq<char>| #[trigger] assoc_lookup(r.desc().args_assoc(), k) == if k
                == arg.call_name@ {
                Some(arg)
            } else {
                assoc_lookup(self.desc().args_assoc(), k)
            },
    {
        let CmdBuilder { description: mut desc } = self;
        let ghost pre = desc.args_assoc();
        let mut i: usize = 0;
        let n = desc.args.len();
        let mut found: Option<usize> = None;
        while i < n
            invariant
                i <= n,
                n == desc.args@.len(),
                pre == desc.args_assoc(),
                match found {
                    Some(w) => w < i && pre[w as int].0 == arg.call_name@ && (forall|j: int|
                        0 <= j < w ==> pre[j].0 != arg.call_name@),
                    None => forall|j: int| 0 <= j < i ==> pre[j].0 != arg.call_name@,
                },
                found is Some ==> i == n,
            decreases n - i + (if found is Some {
                0int
            } else {
                1int
            }),
        {
            if str_eq(desc.args[i].call_name.as_str(), arg.call_name.as_str()) {
                found = Some(i);
                i = n;
            } else {
                i = i + 1;
            }
        }
        match found {
            Some(w) => {
                let _prev = desc.args.remove(w);
                desc.args.insert(w, arg);
                proof {
                    assert(desc.args_assoc() =~= pre.update(
                        w as int,
                        (desc.args@[w as int].call_name@, desc.args@[w as int]),
                    ));
                    lemma_assoc_update(
                        pre,
                        w as int,
                        (desc.args@[w as int].call_name@, desc.args@[w as int]),
                    );
                    lemma_assoc_distinct_update(
                        pre,
                        w as int,
                        (desc.args@[w as int].call_name@, desc.args@[w as int]),
                    );
                }
            },
            None => {
                desc.args.push(arg);
                proof {
                    let ghost last = desc.args@.len() - 1;
                    assert(desc.args_assoc() =~= pre.push(
                        (desc.args@[last].call_name@, desc.args@[last]),
                    ));
                    lemma_assoc_push(pre, (desc.args@[last].call_name@, desc.args@[last]));
                    lemma_assoc_none(pre, desc.args@[last].call_name@);
                    lemma_assoc_distinct_push(
                        pre,
                        (desc.args@[last].call_name@, desc.args@[last]),
                    );
                }
            },
        }
        CmdBuilder { description: desc }
    }

    pub fn build(self) -> (r: CmdDescription)
        ensures
            r == self.desc(),
    {
        self.description
    }
}

/// Builds one argument description.
pub struct ArgBuilder {
    description: ArgDescription,
}

impl ArgBuilder {
    /// The description built so far.
    pub closed spec fn desc(&self) -> ArgDescription {
        self.description
    }

    pub fn new(call_name: &str, arg_type: ArgType) -> (r: ArgBuilder)
        ensures
            r.desc().call_name@ == call_name@,
            r.desc().description is None,
            r.desc().arg_type == arg_type,
    {
        ArgBuilder {
            description: ArgDescription {
                call_name: call_name.to_owned(),
                description: None,
                arg_type,
            },
        }
    }

    pub fn add_description(self, description: &str) -> (r: ArgBuilder)
        ensures
            r.desc().call_name == self.desc().call_name,
            r.desc().arg_type == self.desc().arg_type,
            r.desc().description matches Some(d) && d@ == description@,
    {
        let ArgBuilder { description: mut desc } = self;
        desc.description = Some(description.to_owned());
        ArgBuilder { description: desc }
    }

    pub fn build(self) -> (r: ArgDescription)
        ensures
            r == self.desc(),
    {
        self.description
    }
}

/// The typed argument values of one command invocation, keyed by argument
/// name. Putting a value under a name that is already present replaces it.
#[derive(Debug)]
pub struct ArgsList {
    u64_list: Vec<(String, u64)>,
    bool_list: Vec<(String, bool)>,
    string_list: Vec<(String, String)>,
}

impl ArgsList {
    /// The integer arguments as a keyed table.
    pub closed spec fn u64s(&self) -> Seq<(Seq<char>, u64)> {
        Seq::new(self.u64_list@.len(), |i: int| (self.u64_list@[i].0@, self.u64_list@[i].1))
    }

    /// The boolean arguments as a keyed table.
    pub closed spec fn bools(&self) -> Seq<(Seq<char>, bool)> {
        Seq::new(self.bool_list@.len(), |i: int| (self.bool_list@[i].0@, self.bool_list@[i].1))
    }

    /// The string arguments as a keyed table.
    pub closed spec fn strs(&self) -> Seq<(Seq<char>, Seq<char>)> {
        Seq::new(
            self.string_list@.len(),
            |i: int| (self.string_list@[i].0@, self.string_list@[i].1@),
        )
    }

    /// Each table keys its names at most once.
    pub open spec fn wf(&self) -> bool {
        assoc_distinct(self.u64s()) && assoc_distinct(self.bools()) && assoc_distinct(
            self.strs(),
        )
    }

    pub fn new() -> (r: ArgsList)
        ensures
            r.wf(),
            r.u64s() == Seq::<(Seq<char>, u64)>::empty(),
            r.bools() == Seq::<(Seq<char>, bool)>::empty(),
            r.strs() == Seq::<(Seq<char>, Seq<char>)>::empty(),
    {
        let r = ArgsList { u64_list: Vec::new(), bool_list: Vec::new(), string_list: Vec::new() };
        proof {
            assert(r.u64s() =~= Seq::<(Seq<char>, u64)>::empty());
            assert(r.bools() =~= Seq::<(Seq<char>, bool)>::empty());
            assert(r.strs() =~= Seq::<(Seq<char>, Seq<char>)>::empty());
        }
        r
    }

    fn find_u64(&self, name: &str) -> (r: Option<usize>)
        ensures
            match r {
                Some(i) => i < self.u64s().len() && self.u64s()[i as int].0 == name@ && (forall|
                    j: int,
                |
                    0 <= j < i ==> self.u64s()[j].0 != name@),
                None => assoc_lookup(self.u64s(), name@) is None,
            },
    {
        let mut i: usize = 0;
        while i < self.u64_list.len()
            invariant
                i <= self.u64_list@.len(),
                forall|j: int| 0 <= j < i ==> self.u64s()[j].0 != name@,
            decreases self.u64_list@.len() - i,
        {
            if str_eq(self.u64_list[i].0.as_str(), name) {
                return Some(i);
            }
            i = i + 1;
        }
        proof {
            lemma_assoc_none(self.u64s(), name@);
        }
        None
    }

    fn find_bool(&self, name: &str) -> (r: Option<usize>)
        ensures
            match r {
                Some(i) => i < self.bools().len() && self.bools()[i as int].0 == name@ && (forall|
                    j: int,
                |
                    0 <= j < i ==> self.bools()[j].0 != name@),
                None => assoc_lookup(self.bools(), name@) is None,
            },
    {
        let mut i: usize = 0;
        while i < self.bool_list.len()
            invariant
                i <= self.bool_list@.len(),
                forall|j: int| 0 <= j < i ==> self.bools()[j].0 != name@,
            decreases self.bool_list@.len() - i,
        {
            if str_eq(self.bool_list[i].0.as_str(), name) {
                return Some(i);
            }
            i = i + 1;
        }
        proof {
            lemma_assoc_none(self.bools(), name@);
        }
        None
    }

    fn find_string(&self, name: &str) -> (r: Option<usize>)
        ensures
            match r {
                Some(i) => i < self.strs().len() && self.strs()[i as int].0 == name@ && (forall|
                    j: int,
                |
                    0 <= j < i ==> self.strs()[j].0 != name@),
                None => assoc_lookup(self.strs(), name@) is None,
            },
    {
        let mut i: usize = 0;
        while i < self.string_list.len()
            invariant
                i <= self.string_list@.len(),
                forall|j: int| 0 <= j < i ==> self.strs()[j].0 != name@,
            decreases self.string_list@.len() - i,
        {
            if str_eq(self.string_list[i].0.as_str(), name) {
                return Some(i);
            }
            i = i + 1;
        }
        proof {
            lemma_assoc_none(self.strs(), name@);
        }
        None
    }

    /// The integer argument stored under this name (which must be present).
    pub fn get_u64(&self, arg_call_name: &str) -> (r: u64)
        requires
            assoc_lookup(self.u64s(), arg_call_name@) is Some,
        ensures
            Some(r) == assoc_lookup(self.u64s(), arg_call_name@),
    {
        let found = self.find_u64(arg_call_name);
        match found {
            Some(i) => {
                proof {
                    lemma_assoc_at(self.u64s(), arg_call_name@, i as int);
                }
                self.u64_list[i].1
            },
            None => {
                proof {
                    assert(false);
                }
                0
            },
        }
    }

    /// Stores an integer argument, replacing any previous value of the name.
    pub fn put_u64(&mut self, arg_call_name: &str, value: u64)
        requires
            old(self).wf(),
        ensures
            final(self).wf(),
            final(self).bools() == old(self).bools(),
            final(self).strs() == old(self).strs(),
            forall|k: Seq<char>| #[trigger] assoc_lookup(final(self).u64s(), k) == if k
                == arg_call_name@ {
                Some(value)
            } else {
                assoc_lookup(old(self).u64s(), k)
            },
            final(self).u64s().len() == old(self).u64s().len() + (if assoc_lookup(
                old(self).u64s(),
                arg_call_name@,
            ) is Some {
                0int
            } else {
                1int
            }),
    {
        let ghost pre = self.u64s();
        let found = self.find_u64(arg_call_name);
        match found {
            Some(i) => {
                proof {
                    lemma_assoc_at(pre, arg_call_name@, i as int);
                }
                let _prev = self.u64_list.remove(i);
                self.u64_list.insert(i, (arg_call_name.to_owned(), value));
                proof {
                    assert(self.u64s() =~= pre.update(i as int, (arg_call_name@, value)));
                    lemma_assoc_update(pre, i as int, (arg_call_name@, value));
                    lemma_assoc_distinct_update(pre, i as int, (arg_call_name@, value));
                    assert(self.bools() =~= old(self).bools());
                    assert(self.strs() =~= old(self).strs());
                }
            },
            None => {
                self.u64_list.push((arg_call_name.to_owned(), value));
                proof {
                    assert(self.u64s() =~= pre.push((arg_call_name@, value)));
                    lemma_assoc_push(pre, (arg_call_name@, value));
                    lemma_assoc_distinct_push(pre, (arg_call_name@, value));
                    assert(self.bools() =~= old(self).bools());
                    assert(self.strs() =~= old(self).strs());
                }
            },
        }
    }

    /// The boolean argument stored under this name (which must be present).
    pub fn get_bool(&self, arg_call_name: &str) -> (r: bool)
        requires
            assoc_lookup(self.bools(), arg_call_name@) is Some,
        ensures
            Some(r) == assoc_lookup(self.bools(), arg_call_name@),
    {
        let found = self.find_bool(arg_call_name);
        match found {
            Some(i) => {
                proof {
                    lemma_assoc_at(self.bools(), arg_call_name@, i as int);
                }
                self.bool_list[i].1
            },
            None => {
                proof {
                    assert(false);
                }
                false
            },
        }
    }

    /// Stores a boolean argument, replacing any previous value of the name.
    pub fn put_bool(&mut self, arg_call_name: &str, value: bool)
        requires
            old(self).wf(),
        ensures
            final(self).wf(),
            final(self).u64s() == old(self).u64s(),
            final(self).strs() == old(self).strs(),
            forall|k: Seq<char>| #[trigger] assoc_lookup(final(self).bools(), k) == if k
                == arg_call_name@ {
                Some(value)
            } else {
                assoc_lookup(old(self).bools(), k)
            },
            final(self).bools().len() == old(self).bools().len() + (if assoc_lookup(
                old(self).bools(),
                arg_call_name@,
            ) is Some {
                0int
            } else {
                1int
            }),
    {
        let ghost pre = self.bools();
        let found = self.find_bool(arg_call_name);
        match found {
            Some(i) => {
                proof {
                    lemma_assoc_at(pre, arg_call_name@, i as int);
                }
                let _prev = self.bool_list.remove(i);
                self.bool_list.insert(i, (arg_call_name.to_owned(), value));
                proof {
                    assert(self.bools() =~= pre.update(i as int, (arg_call_name@, value)));
                    lemma_assoc_update(pre, i as int, (arg_call_name@, value));
                    lemma_assoc_distinct_update(pre, i as int, (arg_call_name@, value));
                    assert(self.u64s() =~= old(self).u64s());
                    assert(self.strs() =~= old(self).strs());
                }
            },
            None => {
                self.bool_list.push((arg_call_name.to_owned(), value));
                proof {
                    assert(self.bools() =~= pre.push((arg_call_name@, value)));
                    lemma_assoc_push(pre, (arg_call_name@, value));
                    lemma_assoc_distinct_push(pre, (arg_call_name@, value));
                    assert(self.u64s() =~= old(self).u64s());
                    assert(self.strs() =~= old(self).strs());
                }
            },
        }
    }

    /// The string argument stored under this name (which must be present).
    pub fn get_string(&self, arg_call_name: &str) -> (r: String)
        requires
            assoc_lookup(self.strs(), arg_call_name@) is Some,
        ensures
            Some(r@) == assoc_lookup(self.strs(), arg_call_name@),
    {
        let found = self.find_string(arg_call_name);
        match found {
            Some(i) => {
                proof {
                    lemma_assoc_at(self.strs(), arg_call_name@, i as int);
                }
                self.string_list[i].1.clone()
            },
            None => {
                proof {
                    assert(false);
                }
                String::new()
            },
        }
    }

    /// Stores a string argument, replacing any previous value of the name.
    pub fn put_string(&mut self, arg_call_name: &str, value: String)
        requires
            old(self).wf(),
        ensures
            final(self).wf(),
            final(self).u64s() == old(self).u64s(),
            final(self).bools() == old(self).bools(),
            forall|k: Seq<char>| #[trigger] assoc_lookup(final(self).strs(), k) == if k
                == arg_call_name@ {
                Some(value@)
            } else {
                assoc_lookup(old(self).strs(), k)
            },
            final(self).strs().len() == old(self).strs().len() + (if assoc_lookup(
                old(self).strs(),
                arg_call_name@,
            ) is Some {
                0int
            } else {
                1int
            }),
    {
        let ghost pre = self.strs();
        let found = self.find_string(arg_call_name);
        match found {
            Some(i) => {
                proof {
                    lemma_assoc_at(pre, arg_call_name@, i as int);
                }
                let _prev = self.string_list.remove(i);
                self.string_list.insert(i, (arg_call_name.to_owned(), value));
                proof {
                    assert(self.strs() =~= pre.update(i as int, (arg_call_name@, value@)));
                    lemma_assoc_update(pre, i as int, (arg_call_name@, value@));
                    lemma_assoc_distinct_update(pre, i as int, (arg_call_name@, value@));
                    assert(self.u64s() =~= old(self).u64s());
                    assert(self.bools() =~= old(self).bools());
                }
            },
            None => {
                self.string_list.push((arg_call_name.to_owned(), value));
                proof {
                    let ghost last = self.string_list@.len() - 1;
                    assert(self.strs() =~= pre.push(
                        (arg_call_name@, self.string_list@[last].1@),
                    ));
                    lemma_assoc_push(pre, (arg_call_name@, self.string_list@[last].1@));
                    lemma_assoc_distinct_push(pre, (arg_call_name@, self.string_list@[last].1@));
                    assert(self.u64s() =~= old(self).u64s());
                    assert(self.bools() =~= old(self).bools());
                }
            },
        }
    }
}

/// User logic bound to a command: runs on the parsed argument values.
pub trait CmdHandler: Sized {
    fn run(&self, args: &ArgsList);
}

/// One registered command: its description and its handler.
pub struct CmdWrapper<C> {
    pub description: CmdDescription,
    pub handler: C,
}

/// The names of the registered commands.
pub struct CommandsDescription {
    pub command_names: Vec<String>,
}

/// The command registry: a table from call name to registered command.
/// Registering a name that already exists replaces the previous command.
pub struct CmdManager<C> {
    cmd_map: Vec<(String, CmdWrapper<C>)>,
}

impl<C> CmdManager<C> {
    /// The registered commands as a keyed table, in registration order.
    pub closed spec fn cmds(&self) -> Seq<(Seq<char>, CmdWrapper<C>)> {
        Seq::new(self.cmd_map@.len(), |i: int| (self.cmd_map@[i].0@, self.cmd_map@[i].1))
    }

    /// Each command name is registered at most once.
    pub open spec fn wf(&self) -> bool {
        assoc_distinct(self.cmds())
    }

    pub fn new() -> (r: CmdManager<C>)
        ensures
            r.wf(),
            r.cmds() == Seq::<(Seq<char>, CmdWrapper<C>)>::empty(),
    {
        let r = CmdManager { cmd_map: Vec::new() };
        proof {
            assert(r.cmds() =~= Seq::<(Seq<char>, CmdWrapper<C>)>::empty());
        }
        r
    }

    fn find_cmd(&self, name: &str) -> (r: Option<usize>)
        ensures
            match r {
                Some(i) => i < self.cmds().len() && self.cmds()[i as int].0 == name@ && (forall|
                    j: int,
                |
                    0 <= j < i ==> self.cmds()[j].0 != name@),
                None => assoc_lookup(self.cmds(), name@) is None,
            },
    {
        let mut i: usize = 0;
        while i < self.cmd_map.len()
            invariant
                i <= self.cmd_map@.len(),
                forall|j: int| 0 <= j < i ==> self.cmds()[j].0 != name@,
            decreases self.cmd_map@.len() - i,
        {
            if str_eq(self.cmd_map[i].0.as_str(), name) {
                return Some(i);
            }
            i = i + 1;
        }
        proof {
            lemma_assoc_none(self.cmds(), name@);
        }
        None
    }

    /// Registers a command under its description's call name, replacing any
    /// previous command of that name.
    pub fn add_command(&mut self, description: CmdDescription, handler: C)
        requires
            old(self).wf(),
        ensures
            final(self).wf(),
            forall|k: Seq<char>| #[trigger] assoc_lookup(final(self).cmds(), k) == if k
                == description.call_name@ {
                Some(CmdWrapper { description, handler })
            } else {
                assoc_lookup(old(self).cmds(), k)
            },
    {
        let ghost pre = self.cmds();
        let key = description.call_name.clone();
        let wrapper = CmdWrapper { description, handler };
        let found = self.find_cmd(key.as_str());
        match found {
            Some(i) => {
                proof {
                    lemma_assoc_at(pre, key@, i as int);
                }
                let _prev = self.cmd_map.remove(i);
                self.cmd_map.insert(i, (key, wrapper));
                proof {
                    assert(self.cmds() =~= pre.update(
                        i as int,
                        (self.cmd_map@[i as int].0@, self.cmd_map@[i as int].1),
                    ));
                    lemma_assoc_update(
                        pre,
                        i as int,
                        (self.cmd_map@[i as int].0@, self.cmd_map@[i as int].1),
                    );
                    lemma_assoc_distinct_update(
                        pre,
                        i as int,
                        (self.cmd_map@[i as int].0@, self.cmd_map@[i as int].1),
                    );
                }
            },
            None => {
                self.cmd_map.push((key, wrapper));
                proof {
                    let ghost last = self.cmd_map@.len() - 1;
                    assert(self.cmds() =~= pre.push(
                        (self.cmd_map@[last].0@, self.cmd_map@[last].1),
                    ));
                    lemma_assoc_push(pre, (self.cmd_map@[last].0@, self.cmd_map@[last].1));
                    lemma_assoc_distinct_push(
                        pre,
                        (self.cmd_map@[last].0@, self.cmd_map@[last].1),
                    );
                }
            },
        }
    }

    /// The registered commands, for adapters that walk the table.
    pub fn get_cmd_description(&self) -> (r: &Vec<(String, CmdWrapper<C>)>)
        ensures
            r@.len() == self.cmds().len(),
            forall|i: int|
                0 <= i < r@.len() ==> (#[trigger] r@[i].0@, r@[i].1) == self.cmds()[i],
    {
        &self.cmd_map
    }

    /// The names of all registered commands, in registration order.
    pub fn get_commands_description(&self) -> (r: CommandsDescription)
        ensures
            r.command_names@.len() == self.cmds().len(),
            forall|i: int|
                0 <= i < r.command_names@.len() ==> #[trigger] r.command_names@[i]@
                    == self.cmds()[i].0,
    {
        let mut command_names: Vec<String> = Vec::new();
        let mut i: usize = 0;
        while i < self.cmd_map.len()
            invariant
                i <= self.cmd_map@.len(),
                command_names@.len() == i,
                forall|j: int|
                    0 <= j < i ==> #[trigger] command_names@[j]@ == self.cmds()[j].0,
            decreases self.cmd_map@.len() - i,
        {
            command_names.push(self.cmd_map[i].0.clone());
            i = i + 1;
        }
        CommandsDescription { command_names }
    }

    /// The description of the named command, or an error when the name was
    /// never registered.
    pub fn get_command_description(&self, cmd_name: &str) -> (r: Result<
        &CmdDescription,
        CmdError,
    >)
        ensures
            match r {
                Ok(d) => assoc_lookup(self.cmds(), cmd_name@) matches Some(w) && *d
                    == w.description,
                Err(e) => assoc_lookup(self.cmds(), cmd_name@) is None && e
                    == CmdError::UnknownCommand,
            },
    {
        let found = self.find_cmd(cmd_name);
        match found {
            Some(i) => {
                proof {
                    lemma_assoc_at(self.cmds(), cmd_name@, i as int);
                }
                Ok(&self.cmd_map[i].1.description)
            },
            None => Err(CmdError::UnknownCommand),
        }
    }
}

impl<C: CmdHandler> CmdManager<C> {
    /// Runs the named command's handler on `args`. Fails exactly when the
    /// name was never registered.
    pub fn handle(&self, cmd_call_name: &str, args: &ArgsList) -> (r: Result<(), CmdError>)
        ensures
            match r {
                Ok(_) => assoc_lookup(self.cmds(), cmd_call_name@) is Some,
                Err(e) => assoc_lookup(self.cmds(), cmd_call_name@) is None && e
                    == CmdError::UnknownCommand,
            },
    {
        let found = self.find_cmd(cmd_call_name);
        match found {
            Some(i) => {
                proof {
                    lemma_assoc_at(self.cmds(), cmd_call_name@, i as int);
                }
                self.cmd_map[i].1.handler.run(args);
                Ok(())
            },
            None => Err(CmdError::UnknownCommand),
        }
    }
}

} // verus!
