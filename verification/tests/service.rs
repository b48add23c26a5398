use amina_core::service::{Context, Service, ServiceApi, ServiceError, ServiceInitializer};

const KEY_ONE: u64 = 1;
const KEY_TWO: u64 = 2;

struct ServiceOne {}

impl ServiceOne {
    pub fn say_hello(&self) {
        println!("ServiceOne says Hello");
    }
}

struct ServiceTwo {
    service_one_key: u64,
}

enum AppService {
    One(ServiceOne),
    Two(ServiceTwo),
}

impl ServiceApi for AppService {
    fn start(&self) {
        match self {
            AppService::One(_) => println!("ServiceOne started"),
            AppService::Two(_) => println!("ServiceTwo started"),
        }
    }

    fn stop(&self) {
        match self {
            AppService::One(_) => println!("ServiceOne stopped"),
            AppService::Two(_) => println!("ServiceTwo stopped"),
        }
    }
}

impl ServiceInitializer<AppService> for ServiceOne {
    fn initialize(_context: &mut Context<AppService>) -> (u64, AppService) {
        println!("ServiceOne initialized");
        (KEY_ONE, AppService::One(ServiceOne {}))
    }
}

impl ServiceInitializer<AppService> for ServiceTwo {
    fn initialize(context: &mut Context<AppService>) -> (u64, AppService) {
        let entry = context.get_service(KEY_ONE).unwrap();
        if let AppService::One(one) = &entry.instance {
            one.say_hello();
        }
        println!("ServiceTwo initialized");
        (
            KEY_TWO,
            AppService::Two(ServiceTwo {
                service_one_key: entry.key,
            }),
        )
    }
}

#[test]
fn service_test_basic() {
    let mut context: Context<AppService> = Context::new();
    context.init_service::<ServiceOne>();
    context.init_service::<ServiceTwo>();
    context.start();
    context.stop();
}

#[derive(PartialEq, Debug)]
struct Plain(u32);

impl ServiceApi for Plain {}

#[test]
fn start_order_is_registration_order() {
    let mut context: Context<Plain> = Context::new();
    context.add_service(10, Plain(100));
    context.add_service(20, Plain(200));
    context.add_service(30, Plain(300));
    assert_eq!(context.start(), vec![10, 20, 30]);
    assert_eq!(context.stop(), vec![30, 20, 10]);
}

#[test]
fn lookup_unknown_service_fails() {
    let context: Context<Plain> = Context::new();
    assert_eq!(context.get_service(7).err(), Some(ServiceError::NotRegistered));
}

#[test]
fn lookup_returns_last_registration() {
    let mut context: Context<Plain> = Context::new();
    context.add_service(5, Plain(111));
    context.add_service(5, Plain(222));
    let entry: &Service<Plain> = context.get_service(5).unwrap();
    assert_eq!(entry.instance, Plain(222));
    // the ordered sequence keeps both registrations
    assert_eq!(context.start(), vec![5, 5]);
    // the lookup stays stable across repeated calls
    let again = context.get_service(5).unwrap();
    assert_eq!(again.instance, Plain(222));
}
