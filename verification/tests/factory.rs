//! Scenarios of the pool registry.

use ootleswap::address::{ComponentId, ResourceId, TemplateId};
use ootleswap::factory::{Factory, FactoryError};
use ootleswap::pool::Pool;
use ootleswap::soon_token::SoonToken;

fn resource(tag: u8) -> ResourceId {
    let mut bytes = [0u8; 32];
    bytes[0] = tag;
    bytes[5] = 0xa0 | tag;
    ResourceId { bytes }
}

fn component(tag: u8) -> ComponentId {
    ComponentId { bytes: [tag; 32] }
}

fn template(tag: u8) -> TemplateId {
    TemplateId { bytes: [tag; 32] }
}

fn found(res: Option<ComponentId>) -> Option<[u8; 32]> {
    res.map(|c| c.bytes)
}

const POOL_TEMPLATE: u8 = 0x31;
const SOON_TEMPLATE: u8 = 0xc5;

/// A factory for the pool template, two token resources and a pool over them.
fn setup() -> (Factory, ComponentId, ComponentId, ResourceId, ResourceId) {
    let soon_a = SoonToken::new(resource(1));
    let soon_b = SoonToken::new(resource(2));
    let res_a = soon_a.resource_address();
    let res_b = soon_b.resource_address();
    assert_ne!(res_a.bytes, res_b.bytes, "two SoonToken instances must produce distinct resources");
    let pool_component = component(0x3a);
    let _pool = Pool::new(res_a, res_b, resource(9)).unwrap();
    let factory = Factory::new(template(POOL_TEMPLATE));
    (factory, pool_component, component(0x7c), res_a, res_b)
}

#[test]
fn register_and_lookup_pool() {
    let (mut factory, pool, _soon_a, res_a, res_b) = setup();
    assert_eq!(factory.pool_count(), 0);
    factory.register_pool(pool, res_a, res_b, template(POOL_TEMPLATE)).unwrap();
    assert_eq!(factory.pool_count(), 1);
    assert_eq!(found(factory.get_pool(res_a, res_b)), Some(pool.bytes));
    assert_eq!(found(factory.get_pool(res_b, res_a)), Some(pool.bytes));
}

#[test]
fn lookup_unknown_pair_returns_none() {
    let (mut factory, pool, _soon_a, res_a, res_b) = setup();
    factory.register_pool(pool, res_a, res_b, template(POOL_TEMPLATE)).unwrap();
    let soon_c = SoonToken::new(resource(3));
    let res_c = soon_c.resource_address();
    assert_eq!(found(factory.get_pool(res_a, res_c)), None);
}

#[test]
fn rejects_duplicate_registration() {
    let (mut factory, pool, _, res_a, res_b) = setup();
    factory.register_pool(pool, res_a, res_b, template(POOL_TEMPLATE)).unwrap();
    let second = factory.register_pool(pool, res_a, res_b, template(POOL_TEMPLATE));
    assert_eq!(second, Err(FactoryError::DuplicatePair));
    assert_eq!(factory.pool_count(), 1);
}

#[test]
fn rejects_wrong_template_component() {
    let (mut factory, _pool, soon_a, res_a, res_b) = setup();
    // soon_a is a SoonToken component: its template is not the pool template.
    let res = factory.register_pool(soon_a, res_a, res_b, template(SOON_TEMPLATE));
    assert_eq!(res, Err(FactoryError::WrongTemplate));
    assert_eq!(factory.pool_count(), 0);
}

#[test]
fn list_pools_returns_all_registered() {
    let (mut factory, pool, _soon_a, res_a, res_b) = setup();
    factory.register_pool(pool, res_a, res_b, template(POOL_TEMPLATE)).unwrap();
    let soon_c = SoonToken::new(resource(3));
    let res_c = soon_c.resource_address();
    let pool2 = component(0x44);
    factory.register_pool(pool2, res_a, res_c, template(POOL_TEMPLATE)).unwrap();
    assert_eq!(factory.pool_count(), 2);
    assert_eq!(found(factory.get_pool(res_a, res_b)), Some(pool.bytes));
    assert_eq!(found(factory.get_pool(res_a, res_c)), Some(pool2.bytes));
    let listed = factory.list_pools();
    assert_eq!(listed.len(), 2);
    assert_eq!(listed[0].component.bytes, pool.bytes);
    assert_eq!(listed[1].component.bytes, pool2.bytes);
}

#[test]
fn registration_stores_the_pair_canonically() {
    let (mut factory, pool, _, res_a, res_b) = setup();
    // Given in reverse: res_b renders after res_a, so it is stored second.
    factory.register_pool(pool, res_b, res_a, template(POOL_TEMPLATE)).unwrap();
    let listed = factory.list_pools();
    assert_eq!(listed[0].resource_a.bytes, res_a.bytes);
    assert_eq!(listed[0].resource_b.bytes, res_b.bytes);
}

#[test]
fn rejects_same_resource_twice() {
    let (mut factory, pool, _, res_a, _) = setup();
    assert_eq!(
        factory.register_pool(pool, res_a, res_a, template(POOL_TEMPLATE)),
        Err(FactoryError::SameResource)
    );
    assert_eq!(found(factory.get_pool(res_a, res_a)), None);
}

#[test]
fn rejects_a_component_registered_for_another_pair() {
    let (mut factory, pool, _, res_a, res_b) = setup();
    factory.register_pool(pool, res_a, res_b, template(POOL_TEMPLATE)).unwrap();
    let res_c = resource(3);
    assert_eq!(
        factory.register_pool(pool, res_a, res_c, template(POOL_TEMPLATE)),
        Err(FactoryError::DuplicateComponent)
    );
    // The same pair in the other order is the same pair.
    assert_eq!(
        factory.register_pool(component(0x55), res_b, res_a, template(POOL_TEMPLATE)),
        Err(FactoryError::DuplicatePair)
    );
}

#[test]
fn get_pool_template_returns_the_configured_template() {
    let (factory, _, _, _, _) = setup();
    assert_eq!(factory.get_pool_template().bytes, template(POOL_TEMPLATE).bytes);
}
