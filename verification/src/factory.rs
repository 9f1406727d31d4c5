//! The pool registry: a permissionless list of pools, one per resource pair,
//! looked up by pair in either order.
//!
//! A pool is registered under the canonical order of its pair (by the text of
//! the resource addresses), so a lookup canonicalizes its pair the same way.
//! The registry is a hint: it checks that the component comes from the
//! configured pool template and trusts the pair that the caller names.

use crate::address::{
    canonical_order, canonical_pair, lemma_canonical_order_symmetric, ComponentId, ResourceId,
    TemplateId,
};
use vstd::prelude::*;

verus! {

/// One registered pool, its resources in canonical order.
#[derive(Clone, Copy)]
pub struct PoolEntry {
    pub resource_a: ResourceId,
    pub resource_b: ResourceId,
    pub component: ComponentId,
}

/// Why a registration is refused. The transaction then fails and the
/// registry does not change.
#[derive(Clone, Copy, Debug, PartialEq, Eq, Structural)]
pub enum FactoryError {
    /// Both resources of the pair are the same.
    SameResource,
    /// The component is not an instance of the configured pool template.
    WrongTemplate,
    /// A pool for this resource pair is already registered.
    DuplicatePair,
    /// This pool component is already registered.
    DuplicateComponent,
}

/// The registry of pools of one pool template.
pub struct Factory {
    pub pools: Vec<PoolEntry>,
    pub pool_template: TemplateId,
}

/// The component of the first entry registered for the canonical pair `(a, b)`.
pub open spec fn find_pool(pools: Seq<PoolEntry>, a: ResourceId, b: ResourceId) -> Option<
    ComponentId,
>
    decreases pools.len(),
{
    if pools.len() == 0 {
        None
    } else if pools[0].resource_a == a && pools[0].resource_b == b {
        Some(pools[0].component)
    } else {
        find_pool(pools.drop_first(), a, b)
    }
}

/// Scanning the entries in order, the first one that already has the
/// canonical pair `(a, b)` or the component `c`, and which of the two.
pub open spec fn first_conflict(
    pools: Seq<PoolEntry>,
    a: ResourceId,
    b: ResourceId,
    c: ComponentId,
) -> Option<FactoryError>
    decreases pools.len(),
{
    if pools.len() == 0 {
        None
    } else if pools[0].resource_a == a && pools[0].resource_b == b {
        Some(FactoryError::DuplicatePair)
    } else if pools[0].component == c {
        Some(FactoryError::DuplicateComponent)
    } else {
        first_conflict(pools.drop_first(), a, b, c)
    }
}

/// Without a conflict, no entry has the pair or the component.
proof fn lemma_no_conflict(pools: Seq<PoolEntry>, a: ResourceId, b: ResourceId, c: ComponentId)
    requires
        first_conflict(pools, a, b, c) is None,
    ensures
        forall|i: int|
            0 <= i < pools.len() ==> !(#[trigger] pools[i].resource_a == a && pools[i].resource_b
                == b) && pools[i].component != c,
    decreases pools.len(),
{
    if pools.len() > 0 {
        let rest = pools.drop_first();
        lemma_no_conflict(rest, a, b, c);
        assert forall|i: int| 0 < i < pools.len() implies pools[i] == rest[i - 1] by {}
    }
}

/// Appending an entry for a pair that no entry has makes lookups of that
/// pair find it.
proof fn lemma_find_after_push(pools: Seq<PoolEntry>, e: PoolEntry)
    requires
        first_conflict(pools, e.resource_a, e.resource_b, e.component) is None,
    ensures
        find_pool(pools.push(e), e.resource_a, e.resource_b) == Some(e.component),
    decreases pools.len(),
{
    if pools.len() > 0 {
        lemma_find_after_push(pools.drop_first(), e);
        assert(pools.push(e).drop_first() =~= pools.drop_first().push(e));
    } else {
        assert(pools.push(e)[0] == e);
    }
}

/// Appending an entry never hides a pair that is already registered.
proof fn lemma_find_kept_by_push(pools: Seq<PoolEntry>, e: PoolEntry, a: ResourceId, b: ResourceId)
    requires
        find_pool(pools, a, b) is Some,
    ensures
        find_pool(pools.push(e), a, b) == find_pool(pools, a, b),
    decreases pools.len(),
{
    if pools.len() > 0 && !(pools[0].resource_a == a && pools[0].resource_b == b) {
        lemma_find_kept_by_push(pools.drop_first(), e, a, b);
        assert(pools.push(e).drop_first() =~= pools.drop_first().push(e));
    }
}

/// Stepping a scan from position `i` to `i + 1`.
proof fn lemma_skip_step(pools: Seq<PoolEntry>, i: int)
    requires
        0 <= i < pools.len(),
    ensures
        pools.skip(i).len() > 0,
        pools.skip(i)[0] == pools[i],
        pools.skip(i).drop_first() =~= pools.skip(i + 1),
{
}

impl Factory {
    /// The registry's invariant: every entry is a canonically ordered pair of
    /// two different resources, and no pair and no component appears twice.
    pub open spec fn wf(self) -> bool {
        &&& forall|i: int|
            0 <= i < self.pools@.len() ==> {
                let e = #[trigger] self.pools@[i];
                &&& e.resource_a != e.resource_b
                &&& canonical_order(e.resource_a, e.resource_b) == (e.resource_a, e.resource_b)
            }
        &&& forall|i: int, j: int|
            0 <= i < j < self.pools@.len() ==> {
                let (x, y) = (#[trigger] self.pools@[i], #[trigger] self.pools@[j]);
                &&& !(x.resource_a == y.resource_a && x.resource_b == y.resource_b)
                &&& x.component != y.component
            }
    }

    /// The pool registered for a pair, in either order.
    pub open spec fn lookup(self, resource_a: ResourceId, resource_b: ResourceId) -> Option<
        ComponentId,
    > {
        if resource_a == resource_b {
            None
        } else {
            let (a, b) = canonical_order(resource_a, resource_b);
            find_pool(self.pools@, a, b)
        }
    }

    /// Why `register_pool` refuses, or `None` where it accepts.
    pub open spec fn registration_refusal(
        self,
        pool: ComponentId,
        resource_a: ResourceId,
        resource_b: ResourceId,
        pool_component_template: TemplateId,
    ) -> Option<FactoryError> {
        if resource_a == resource_b {
            Some(FactoryError::SameResource)
        } else if pool_component_template != self.pool_template {
            Some(FactoryError::WrongTemplate)
        } else {
            let (a, b) = canonical_order(resource_a, resource_b);
            first_conflict(self.pools@, a, b, pool)
        }
    }

    /// A factory bound to `pool_template`; only components instantiated from
    /// it are accepted for registration.
    pub fn new(pool_template: TemplateId) -> (res: Factory)
        ensures
            res.pools@.len() == 0,
            res.pool_template == pool_template,
            res.wf(),
    {
        Factory { pools: Vec::new(), pool_template }
    }

    /// Registers the pool component `pool` for the pair `(resource_a,
    /// resource_b)`. `pool_component_template` is the template that the
    /// engine reports for `pool`; it must be the configured pool template.
    /// The pair is stored canonically sorted; a pair or a component that is
    /// already registered is refused.
    pub fn register_pool(
        &mut self,
        pool: ComponentId,
        resource_a: ResourceId,
        resource_b: ResourceId,
        pool_component_template: TemplateId,
    ) -> (res: Result<(), FactoryError>)
        ensures
            match old(self).registration_refusal(
                pool,
                resource_a,
                resource_b,
                pool_component_template,
            ) {
                None => {
                    let (a, b) = canonical_order(resource_a, resource_b);
                    &&& res is Ok
                    &&& final(self).pools@ == old(self).pools@.push(
                        PoolEntry { resource_a: a, resource_b: b, component: pool },
                    )
                    &&& final(self).pool_template == old(self).pool_template
                },
                Some(e) => res == Err::<(), FactoryError>(e) && *final(self) == *old(self),
            },
            old(self).wf() ==> final(self).wf(),
            // A registered pool is found under its pair, in either order.
            res is Ok ==> final(self).lookup(resource_a, resource_b) == Some(pool)
                && final(self).lookup(resource_b, resource_a) == Some(pool),
            // Pairs registered before are still found as before.
            forall|x: ResourceId, y: ResourceId|
                #[trigger] old(self).lookup(x, y) is Some ==> final(self).lookup(x, y) == old(
                    self,
                ).lookup(x, y),
    {
        if resource_a.same_as(&resource_b) {
            return Err(FactoryError::SameResource);
        }
        if !pool_component_template.same_as(&self.pool_template) {
            return Err(FactoryError::WrongTemplate);
        }
        let (canonical_a, canonical_b) = canonical_pair(resource_a, resource_b);
        let n = self.pools.len();
        let mut i: usize = 0;
        proof {
            assert(self.pools@.skip(0) =~= self.pools@);
        }
        while i < n
            invariant
                n == self.pools@.len(),
                0 <= i <= n,
                *self == *old(self),
                resource_a != resource_b,
                pool_component_template == self.pool_template,
                (canonical_a, canonical_b) == canonical_order(resource_a, resource_b),
                first_conflict(self.pools@, canonical_a, canonical_b, pool) == first_conflict(
                    self.pools@.skip(i as int),
                    canonical_a,
                    canonical_b,
                    pool,
                ),
            decreases n - i,
        {
            proof {
                lemma_skip_step(self.pools@, i as int);
            }
            let entry = self.pools[i];
            if entry.resource_a.same_as(&canonical_a) && entry.resource_b.same_as(&canonical_b) {
                assert(first_conflict(self.pools@.skip(i as int), canonical_a, canonical_b, pool)
                    == Some(FactoryError::DuplicatePair));
                return Err(FactoryError::DuplicatePair);
            }
            if entry.component.same_as(&pool) {
                assert(first_conflict(self.pools@.skip(i as int), canonical_a, canonical_b, pool)
                    == Some(FactoryError::DuplicateComponent));
                return Err(FactoryError::DuplicateComponent);
            }
            i += 1;
        }
        let ghost before = self.pools@;
        let entry = PoolEntry { resource_a: canonical_a, resource_b: canonical_b, component: pool };
        proof {
            assert(before.skip(n as int) =~= Seq::<PoolEntry>::empty());
            lemma_no_conflict(before, canonical_a, canonical_b, pool);
            lemma_find_after_push(before, entry);
            lemma_canonical_order_symmetric(resource_a, resource_b);
        }
        self.pools.push(entry);
        proof {
            let after = self.pools@;
            assert forall|x: ResourceId, y: ResourceId|
                #[trigger] old(self).lookup(x, y) is Some implies self.lookup(x, y) == old(
                    self,
                ).lookup(x, y) by {
                let (ca, cb) = canonical_order(x, y);
                lemma_find_kept_by_push(before, entry, ca, cb);
            }
            if old(self).wf() {
                assert forall|k: int| 0 <= k < after.len() implies {
                    let e = #[trigger] after[k];
                    &&& e.resource_a != e.resource_b
                    &&& canonical_order(e.resource_a, e.resource_b) == (e.resource_a, e.resource_b)
                } by {
                    if k == before.len() {
                        lemma_canonical_order_symmetric(canonical_a, canonical_b);
                    } else {
                        assert(after[k] == before[k]);
                    }
                }
                assert forall|k: int, j: int| 0 <= k < j < after.len() implies {
                    let (x, y) = (#[trigger] after[k], #[trigger] after[j]);
                    &&& !(x.resource_a == y.resource_a && x.resource_b == y.resource_b)
                    &&& x.component != y.component
                } by {
                    assert(after[k] == before[k]);
                    if j < before.len() {
                        assert(after[j] == before[j]);
                    }
                }
            }
        }
        Ok(())
    }

    /// Looks up the registered pool for a resource pair, in either order.
    pub fn get_pool(&self, resource_a: ResourceId, resource_b: ResourceId) -> (res: Option<
        ComponentId,
    >)
        ensures
            res == self.lookup(resource_a, resource_b),
    {
        if resource_a.same_as(&resource_b) {
            return None;
        }
        let (a, b) = canonical_pair(resource_a, resource_b);
        let n = self.pools.len();
        let mut i: usize = 0;
        proof {
            assert(self.pools@.skip(0) =~= self.pools@);
        }
        while i < n
            invariant
                n == self.pools@.len(),
                0 <= i <= n,
                resource_a != resource_b,
                (a, b) == canonical_order(resource_a, resource_b),
                find_pool(self.pools@, a, b) == find_pool(self.pools@.skip(i as int), a, b),
            decreases n - i,
        {
            proof {
                lemma_skip_step(self.pools@, i as int);
            }
            let entry = self.pools[i];
            if entry.resource_a.same_as(&a) && entry.resource_b.same_as(&b) {
                assert(find_pool(self.pools@.skip(i as int), a, b) == Some(entry.component));
                return Some(entry.component);
            }
            i += 1;
        }
        proof {
            assert(self.pools@.skip(n as int) =~= Seq::<PoolEntry>::empty());
        }
        None
    }

    /// The number of registered pools.
    pub fn pool_count(&self) -> (res: u32)
        ensures
            res == self.pools@.len() as u32,
    {
        self.pools.len() as u32
    }

    /// All registered pools, in registration order.
    pub fn list_pools(&self) -> (res: Vec<PoolEntry>)
        ensures
            res@ == self.pools@,
    {
        let mut out: Vec<PoolEntry> = Vec::new();
        let n = self.pools.len();
        let mut i: usize = 0;
        while i < n
            invariant
                n == self.pools@.len(),
                0 <= i <= n,
                out@ == self.pools@.take(i as int),
            decreases n - i,
        {
            let e = self.pools[i];
            out.push(PoolEntry { resource_a: e.resource_a, resource_b: e.resource_b, component: e.component });
            assert(self.pools@.take(i + 1) =~= self.pools@.take(i as int).push(e));
            i += 1;
        }
        assert(self.pools@.take(n as int) =~= self.pools@);
        out
    }

    /// The configured pool template.
    pub fn get_pool_template(&self) -> (res: TemplateId)
        ensures
            res == self.pool_template,
    {
        self.pool_template
    }
}

/// Lookups do not depend on the order in which the pair is given.
pub proof fn lemma_get_pool_order_agnostic(f: Factory, x: ResourceId, y: ResourceId)
    ensures
        f.lookup(x, y) == f.lookup(y, x),
{
    if x != y {
        lemma_canonical_order_symmetric(x, y);
    }
}

/// What a scan for the canonical pair `(a, b)` finds: a component only from an
/// entry with exactly that pair, and nothing only when no entry has it.
proof fn lemma_find_pool_sound(pools: Seq<PoolEntry>, a: ResourceId, b: ResourceId)
    ensures
        find_pool(pools, a, b) matches Some(c) ==> exists|i: int|
            0 <= i < pools.len() && #[trigger] pools[i].resource_a == a && pools[i].resource_b == b
                && pools[i].component == c,
        find_pool(pools, a, b) is None ==> forall|i: int|
            0 <= i < pools.len() ==> !(#[trigger] pools[i].resource_a == a && pools[i].resource_b
                == b),
    decreases pools.len(),
{
    if pools.len() > 0 {
        let rest = pools.drop_first();
        lemma_find_pool_sound(rest, a, b);
        if !(pools[0].resource_a == a && pools[0].resource_b == b) {
            if let Some(c) = find_pool(rest, a, b) {
                let i = choose|i: int|
                    0 <= i < rest.len() && #[trigger] rest[i].resource_a == a && rest[i].resource_b
                        == b && rest[i].component == c;
                assert(pools[i + 1] == rest[i]);
            } else {
                assert forall|i: int| 0 <= i < pools.len() implies !(
                #[trigger] pools[i].resource_a == a && pools[i].resource_b == b) by {
                    if i > 0 {
                        assert(pools[i] == rest[i - 1]);
                    }
                }
            }
        }
    }
}

/// What a registration scan reports: a duplicate pair only from an entry with
/// exactly the canonical pair `(a, b)`, a duplicate component only from an
/// entry with component `c`, and no conflict when no entry has either.
proof fn lemma_first_conflict_sound(pools: Seq<PoolEntry>, a: ResourceId, b: ResourceId, c: ComponentId)
    ensures
        first_conflict(pools, a, b, c) == Some(FactoryError::DuplicatePair) ==> exists|i: int|
            0 <= i < pools.len() && #[trigger] pools[i].resource_a == a && pools[i].resource_b
                == b,
        first_conflict(pools, a, b, c) == Some(FactoryError::DuplicateComponent) ==> exists|i: int|
            0 <= i < pools.len() && #[trigger] pools[i].component == c,
        first_conflict(pools, a, b, c) is Some ==> first_conflict(pools, a, b, c) == Some(
            FactoryError::DuplicatePair,
        ) || first_conflict(pools, a, b, c) == Some(FactoryError::DuplicateComponent),
        (forall|i: int|
            0 <= i < pools.len() ==> !(#[trigger] pools[i].resource_a == a && pools[i].resource_b
                == b) && pools[i].component != c) ==> first_conflict(pools, a, b, c) is None,
    decreases pools.len(),
{
    if pools.len() > 0 {
        let rest = pools.drop_first();
        lemma_first_conflict_sound(rest, a, b, c);
        assert forall|i: int| 0 <= i < rest.len() implies rest[i] == pools[i + 1] by {}
        if first_conflict(pools, a, b, c) == Some(FactoryError::DuplicatePair) && !(
        pools[0].resource_a == a && pools[0].resource_b == b) {
            let i = choose|i: int|
                0 <= i < rest.len() && #[trigger] rest[i].resource_a == a && rest[i].resource_b
                    == b;
            assert(pools[i + 1] == rest[i]);
        }
        if first_conflict(pools, a, b, c) == Some(FactoryError::DuplicateComponent)
            && pools[0].component != c {
            let i = choose|i: int| 0 <= i < rest.len() && #[trigger] rest[i].component == c;
            assert(pools[i + 1] == rest[i]);
        }
        if forall|i: int|
            0 <= i < pools.len() ==> !(#[trigger] pools[i].resource_a == a && pools[i].resource_b
                == b) && pools[i].component != c {
            assert(!(pools[0].resource_a == a && pools[0].resource_b == b) && pools[0].component
                != c);
            assert forall|i: int| 0 <= i < rest.len() implies !(#[trigger] rest[i].resource_a == a
                && rest[i].resource_b == b) && rest[i].component != c by {
                assert(rest[i] == pools[i + 1]);
            }
        }
    }
}

/// What registration decides, in terms of the registry's entries: it refuses
/// the same resource twice, a component of another template, a pair that an
/// entry already has (exactly, in canonical order), and a component that an
/// entry already has; it accepts everything else.
pub proof fn lemma_registration_refusal_meaning(
    f: Factory,
    pool: ComponentId,
    resource_a: ResourceId,
    resource_b: ResourceId,
    template: TemplateId,
)
    ensures
        ({
            let (a, b) = canonical_order(resource_a, resource_b);
            let refusal = f.registration_refusal(pool, resource_a, resource_b, template);
            &&& (a, b) == (resource_a, resource_b) || (a, b) == (resource_b, resource_a)
            &&& refusal == Some(FactoryError::SameResource) <==> resource_a == resource_b
            &&& refusal == Some(FactoryError::WrongTemplate) ==> template != f.pool_template
            &&& refusal == Some(FactoryError::DuplicatePair) ==> exists|i: int|
                0 <= i < f.pools@.len() && #[trigger] f.pools@[i].resource_a == a
                    && f.pools@[i].resource_b == b
            &&& refusal == Some(FactoryError::DuplicateComponent) ==> exists|i: int|
                0 <= i < f.pools@.len() && #[trigger] f.pools@[i].component == pool
            &&& (resource_a != resource_b && template == f.pool_template && forall|i: int|
                0 <= i < f.pools@.len() ==> !(#[trigger] f.pools@[i].resource_a == a
                    && f.pools@[i].resource_b == b) && f.pools@[i].component != pool)
                ==> refusal is None
        }),
{
    let (a, b) = canonical_order(resource_a, resource_b);
    lemma_first_conflict_sound(f.pools@, a, b, pool);
}

/// What a lookup returns, in terms of the registry's entries: a component only
/// from an entry with exactly the canonical pair of `(x, y)`, and nothing only
/// when `x == y` or no entry has that pair.
pub proof fn lemma_lookup_meaning(f: Factory, x: ResourceId, y: ResourceId)
    ensures
        ({
            let (a, b) = canonical_order(x, y);
            &&& (a, b) == (x, y) || (a, b) == (y, x)
            &&& f.lookup(x, y) matches Some(c) ==> x != y && exists|i: int|
                0 <= i < f.pools@.len() && #[trigger] f.pools@[i].resource_a == a
                    && f.pools@[i].resource_b == b && f.pools@[i].component == c
            &&& f.lookup(x, y) is None ==> x == y || forall|i: int|
                0 <= i < f.pools@.len() ==> !(#[trigger] f.pools@[i].resource_a == a
                    && f.pools@[i].resource_b == b)
        }),
{
    let (a, b) = canonical_order(x, y);
    lemma_find_pool_sound(f.pools@, a, b);
}

} // verus!
