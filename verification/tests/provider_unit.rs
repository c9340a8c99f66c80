use pullgraph::provider::{DepHandle, ProviderHandle};
use pullgraph::{Context, Provider};
use std::any::TypeId;

#[test]
fn dep_handle_ref_delegates() {
    let h = ProviderHandle::<i32>::new();
    let r: &ProviderHandle<i32> = &h;
    let dr: &dyn DepHandle = r;
    assert_eq!(dr.type_id(), TypeId::of::<i32>());
}

#[test]
fn provider_handle_type_id() {
    let h = ProviderHandle::<i32>::new();
    assert_eq!(h.type_id(), TypeId::of::<i32>());
}

#[test]
fn provider_trait_activate_deactivate() {
    struct LifecycleProvider(bool, bool);
    impl Provider<i32> for LifecycleProvider {
        fn activate(&mut self) {
            self.0 = true;
        }
        fn produce(&mut self, _ctx: &Context<i32>) -> i32 {
            1
        }
        fn deactivate(&mut self) {
            self.1 = true;
        }
    }
    let mut p = LifecycleProvider(false, false);
    p.activate();
    assert!(p.0);
    let ctx: Context<i32> = Context::new();
    assert_eq!(p.produce(&ctx), 1);
    p.deactivate();
    assert!(p.1);
}

#[test]
fn default_hooks_do_nothing() {
    struct Plain(u8);
    impl Provider<u8> for Plain {
        fn produce(&mut self, _ctx: &Context<u8>) -> u8 {
            self.0
        }
    }
    let mut p = Plain(5);
    p.activate();
    p.deactivate();
    let ctx: Context<u8> = Context::new();
    assert_eq!(p.produce(&ctx), 5);
}
