//! Which providers can serve a request.

use vstd::prelude::*;

use crate::breaker::BreakerView;
use crate::config::{ConfigData, ModelProvider};
use crate::model::Tenant;
use crate::swrr;
use crate::text;

pub use crate::model::{Candidate, RouteError};

verus! {

/// One of the texts is `s`.
pub open spec fn lists(texts: Seq<String>, s: Seq<char>) -> bool {
    exists|i: int| 0 <= i < texts.len() && (#[trigger] texts[i])@ == s
}

/// The tenant may use the model.
pub open spec fn model_allowed(cfg: ConfigData, tenant: Tenant, model: Seq<char>) -> bool {
    cfg.tenant_models@.contains_key(tenant.id@) && cfg.tenant_models@[tenant.id@]@.contains(model)
}

/// The online providers of the model.
pub open spec fn serving(cfg: ConfigData, model: Seq<char>) -> Seq<ModelProvider> {
    if cfg.models_by_key@.contains_key(model) {
        cfg.models_by_key@[model]@
    } else {
        Seq::empty()
    }
}

/// One of the online providers of the model is `id`.
pub open spec fn served_by(cfg: ConfigData, model: Seq<char>, id: Seq<char>) -> bool {
    exists|k: int|
        0 <= k < serving(cfg, model).len() && (#[trigger] serving(cfg, model)[k]).provider_id@ == id
}

/// The providers that the tenant may use.
pub open spec fn granted(cfg: ConfigData, tenant: Tenant) -> Seq<String> {
    if cfg.tenant_providers@.contains_key(tenant.id@) {
        cfg.tenant_providers@[tenant.id@]@
    } else {
        Seq::empty()
    }
}

/// The tenant may use the provider, which is known, alive and not soft-disabled.
pub open spec fn live<B: BreakerView>(
    cfg: ConfigData,
    breaker: B,
    tenant: Tenant,
    m: ModelProvider,
) -> bool {
    let id = m.provider_id@;
    &&& lists(granted(cfg, tenant), id)
    &&& cfg.providers@.contains_key(id)
    &&& m.weight > 0
    &&& !breaker.dead(id)
}

/// The provider has an api-key.
pub open spec fn keyed(cfg: ConfigData, m: ModelProvider) -> bool {
    let id = m.provider_id@;
    cfg.provider_keys@.contains_key(id) && cfg.provider_keys@[id]@.len() > 0
}

/// The live ones among the providers of a model, in order.
pub open spec fn live_of<B: BreakerView>(
    cfg: ConfigData,
    breaker: B,
    tenant: Tenant,
    ms: Seq<ModelProvider>,
) -> Seq<ModelProvider>
    decreases ms.len(),
{
    if ms.len() == 0 {
        Seq::empty()
    } else {
        let before = live_of(cfg, breaker, tenant, ms.drop_last());
        if live(cfg, breaker, tenant, ms.last()) {
            before.push(ms.last())
        } else {
            before
        }
    }
}

/// Those with an api-key, in order.
pub open spec fn keyed_of(cfg: ConfigData, ms: Seq<ModelProvider>) -> Seq<ModelProvider>
    decreases ms.len(),
{
    if ms.len() == 0 {
        Seq::empty()
    } else {
        let before = keyed_of(cfg, ms.drop_last());
        if keyed(cfg, ms.last()) {
            before.push(ms.last())
        } else {
            before
        }
    }
}

/// The providers that a request for the model goes to, or why there is none.
///
/// First the tenant must be allowed the model, then some provider must serve it,
/// then the tenant must be enabled and have providers, then one that it may use
/// must be live, and then one of those must have an api-key.
pub open spec fn resolved<B: BreakerView>(
    cfg: ConfigData,
    breaker: B,
    tenant: Tenant,
    model: Seq<char>,
) -> Result<Seq<ModelProvider>, RouteError> {
    let found = live_of(cfg, breaker, tenant, serving(cfg, model));
    if !model_allowed(cfg, tenant, model) {
        Err(RouteError::ModelNotAllowed)
    } else if serving(cfg, model).len() == 0 {
        Err(RouteError::ModelNotFound)
    } else if !tenant.enabled || granted(cfg, tenant).len() == 0 {
        Err(RouteError::TenantForbidden)
    } else if found.len() == 0 {
        Err(RouteError::NoAvailableProvider)
    } else if keyed_of(cfg, found).len() == 0 {
        Err(RouteError::NoAvailableKey)
    } else {
        Ok(keyed_of(cfg, found))
    }
}

/// The candidates are the given providers, with their endpoints and weights.
pub open spec fn candidates_for(
    cfg: ConfigData,
    c: Seq<Candidate>,
    ms: Seq<ModelProvider>,
) -> bool {
    c.len() == ms.len() && forall|i: int|
        0 <= i < c.len() ==> {
            &&& (#[trigger] c[i]).provider_id@ == ms[i].provider_id@
            &&& c[i].endpoint@ == cfg.providers@[ms[i].provider_id@].endpoint@
            &&& c[i].weight == ms[i].weight
        }
}

/// The candidates for a request of the tenant for the model.
pub fn resolve<B: BreakerView>(
    cfg: &ConfigData,
    breaker: &B,
    tenant: &Tenant,
    model_key: &str,
) -> (r: Result<Vec<Candidate>, RouteError>)
    ensures
        match (r, resolved(*cfg, *breaker, *tenant, model_key@)) {
            (Ok(c), Ok(ms)) => candidates_for(*cfg, c@, ms),
            (Err(e), Err(f)) => e == f,
            _ => false,
        },
{
    let allowed = match cfg.tenant_models.get(tenant.id.as_str()) {
        Some(models) => models.contains(model_key),
        None => false,
    };
    if !allowed {
        return Err(RouteError::ModelNotAllowed);
    }
    let models = match cfg.models_by_key.get(model_key) {
        Some(ms) => ms,
        None => {
            return Err(RouteError::ModelNotFound);
        },
    };
    if models.len() == 0 {
        return Err(RouteError::ModelNotFound);
    }
    if !tenant.enabled {
        return Err(RouteError::TenantForbidden);
    }
    let own = match cfg.tenant_providers.get(tenant.id.as_str()) {
        Some(ids) => ids,
        None => {
            return Err(RouteError::TenantForbidden);
        },
    };
    if own.len() == 0 {
        return Err(RouteError::TenantForbidden);
    }
    let mut out: Vec<Candidate> = Vec::new();
    let mut any_live = false;
    let mut i: usize = 0;
    let ghost all = models@;
    let ghost mut found: Seq<ModelProvider> = Seq::empty();
    assert(all.take(0) =~= Seq::empty());
    while i < models.len()
        invariant
            i <= all.len(),
            models@ == all,
            own@ == granted(*cfg, *tenant),
            found == live_of(*cfg, *breaker, *tenant, all.take(i as int)),
            any_live == (found.len() > 0),
            candidates_for(*cfg, out@, keyed_of(*cfg, found)),
        decreases all.len() - i,
    {
        proof {
            assert(all.take(i + 1).drop_last() =~= all.take(i as int));
        }
        let m = &models[i];
        let id = m.provider_id.as_str();
        if m.weight > 0 && contains(own, id) && !breaker.is_dead(id) {
            if let Some(provider) = cfg.providers.get(id) {
                any_live = true;
                proof {
                    assert(live(*cfg, *breaker, *tenant, *m));
                    assert(found.push(*m).drop_last() =~= found);
                    found = found.push(*m);
                }
                let has_key = match cfg.provider_keys.get(id) {
                    Some(keys) => keys.len() > 0,
                    None => false,
                };
                if has_key {
                    out.push(
                        Candidate {
                            provider_id: m.provider_id.clone(),
                            endpoint: provider.endpoint.clone(),
                            weight: m.weight,
                        },
                    );
                }
            }
        }
        i = i + 1;
    }
    assert(all.take(all.len() as int) =~= all);
    if !any_live {
        return Err(RouteError::NoAvailableProvider);
    }
    if out.len() == 0 {
        return Err(RouteError::NoAvailableKey);
    }
    Ok(out)
}

/// Whether one of the texts is `s`.
fn contains(texts: &Vec<String>, s: &str) -> (r: bool)
    ensures
        r == lists(texts@, s@),
{
    let mut i: usize = 0;
    while i < texts.len()
        invariant
            i <= texts@.len(),
            forall|k: int| 0 <= k < i ==> (#[trigger] texts@[k])@ != s@,
        decreases texts@.len() - i,
    {
        if text::same(texts[i].as_str(), s) {
            assert(texts@[i as int]@ == s@);
            return true;
        }
        i = i + 1;
    }
    false
}

// ---------------------------------------------------------------------------
// Laws
// ---------------------------------------------------------------------------

proof fn lemma_live_of<B: BreakerView>(
    cfg: ConfigData,
    breaker: B,
    tenant: Tenant,
    ms: Seq<ModelProvider>,
    i: int,
)
    requires
        0 <= i < live_of(cfg, breaker, tenant, ms).len(),
    ensures
        live(cfg, breaker, tenant, live_of(cfg, breaker, tenant, ms)[i]),
        ms.contains(live_of(cfg, breaker, tenant, ms)[i]),
    decreases ms.len(),
{
    let before = live_of(cfg, breaker, tenant, ms.drop_last());
    if i < before.len() {
        lemma_live_of(cfg, breaker, tenant, ms.drop_last(), i);
        let k = choose|k: int| 0 <= k < ms.len() - 1 && ms.drop_last()[k] == before[i];
        assert(ms[k] == before[i]);
    } else {
        assert(ms[ms.len() - 1] == ms.last());
    }
}

proof fn lemma_keyed_of(cfg: ConfigData, ms: Seq<ModelProvider>, i: int)
    requires
        0 <= i < keyed_of(cfg, ms).len(),
    ensures
        keyed(cfg, keyed_of(cfg, ms)[i]),
        ms.contains(keyed_of(cfg, ms)[i]),
    decreases ms.len(),
{
    let before = keyed_of(cfg, ms.drop_last());
    if i < before.len() {
        lemma_keyed_of(cfg, ms.drop_last(), i);
        let k = choose|k: int| 0 <= k < ms.len() - 1 && ms.drop_last()[k] == before[i];
        assert(ms[k] == before[i]);
    } else {
        assert(ms[ms.len() - 1] == ms.last());
    }
}

/// Every candidate serves the model, is granted to the tenant, is alive, weighs
/// something and has an api-key. There is at least one.
pub proof fn law_candidates_qualify<B: BreakerView>(
    cfg: ConfigData,
    breaker: B,
    tenant: Tenant,
    model: Seq<char>,
)
    requires
        resolved(cfg, breaker, tenant, model) is Ok,
    ensures
        ({
            let ms = resolved(cfg, breaker, tenant, model)->Ok_0;
            &&& ms.len() > 0
            &&& forall|i: int|
                0 <= i < ms.len() ==> {
                    &&& serving(cfg, model).contains(#[trigger] ms[i])
                    &&& live(cfg, breaker, tenant, ms[i])
                    &&& keyed(cfg, ms[i])
                }
        }),
{
    let found = live_of(cfg, breaker, tenant, serving(cfg, model));
    let ms = keyed_of(cfg, found);
    assert forall|i: int| 0 <= i < ms.len() implies {
        &&& serving(cfg, model).contains(#[trigger] ms[i])
        &&& live(cfg, breaker, tenant, ms[i])
        &&& keyed(cfg, ms[i])
    } by {
        lemma_keyed_of(cfg, found, i);
        let k = choose|k: int| 0 <= k < found.len() && found[k] == ms[i];
        lemma_live_of(cfg, breaker, tenant, serving(cfg, model), k);
    }
}

/// No provider that qualifies is left out.
pub proof fn law_no_candidate_is_missed<B: BreakerView>(
    cfg: ConfigData,
    breaker: B,
    tenant: Tenant,
    model: Seq<char>,
    m: ModelProvider,
)
    requires
        model_allowed(cfg, tenant, model),
        tenant.enabled,
        serving(cfg, model).contains(m),
        live(cfg, breaker, tenant, m),
        keyed(cfg, m),
    ensures
        resolved(cfg, breaker, tenant, model) is Ok,
        (resolved(cfg, breaker, tenant, model)->Ok_0).contains(m),
{
    let all = serving(cfg, model);
    let k = choose|k: int| 0 <= k < all.len() && all[k] == m;
    lemma_live_kept(cfg, breaker, tenant, all, k);
    let found = live_of(cfg, breaker, tenant, all);
    let j = choose|j: int| 0 <= j < found.len() && found[j] == m;
    lemma_keyed_kept(cfg, found, j);
}

proof fn lemma_live_kept<B: BreakerView>(
    cfg: ConfigData,
    breaker: B,
    tenant: Tenant,
    ms: Seq<ModelProvider>,
    k: int,
)
    requires
        0 <= k < ms.len(),
        live(cfg, breaker, tenant, ms[k]),
    ensures
        live_of(cfg, breaker, tenant, ms).contains(ms[k]),
    decreases ms.len(),
{
    let all = live_of(cfg, breaker, tenant, ms);
    let before = live_of(cfg, breaker, tenant, ms.drop_last());
    if k < ms.len() - 1 {
        lemma_live_kept(cfg, breaker, tenant, ms.drop_last(), k);
        let j = choose|j: int| 0 <= j < before.len() && before[j] == ms[k];
        assert(all[j] == ms[k]);
    } else {
        assert(all[before.len() as int] == ms[k]);
    }
}

proof fn lemma_keyed_kept(cfg: ConfigData, ms: Seq<ModelProvider>, k: int)
    requires
        0 <= k < ms.len(),
        keyed(cfg, ms[k]),
    ensures
        keyed_of(cfg, ms).contains(ms[k]),
    decreases ms.len(),
{
    let all = keyed_of(cfg, ms);
    let before = keyed_of(cfg, ms.drop_last());
    if k < ms.len() - 1 {
        lemma_keyed_kept(cfg, ms.drop_last(), k);
        let j = choose|j: int| 0 <= j < before.len() && before[j] == ms[k];
        assert(all[j] == ms[k]);
    } else {
        assert(all[before.len() as int] == ms[k]);
    }
}

/// The candidates can take part in a round: their weights sum up to something.
pub proof fn law_candidates_weigh<B: BreakerView>(
    cfg: ConfigData,
    breaker: B,
    tenant: Tenant,
    model: Seq<char>,
    c: Seq<Candidate>,
)
    requires
        resolved(cfg, breaker, tenant, model) is Ok,
        candidates_for(cfg, c, resolved(cfg, breaker, tenant, model)->Ok_0),
    ensures
        swrr::total(c) > 0,
{
    law_candidates_qualify(cfg, breaker, tenant, model);
    lemma_total_positive(c);
}

/// The providers are different ones.
pub open spec fn distinct(ms: Seq<ModelProvider>) -> bool {
    forall|i: int, j: int|
        0 <= i < j < ms.len() ==> (#[trigger] ms[i]).provider_id@ != (#[trigger] ms[j]).provider_id@
}

/// Where a model lists different providers, so do its candidates: then what is
/// said of rounds over the same different providers holds of them.
pub proof fn law_candidates_are_regular<B: BreakerView>(
    cfg: ConfigData,
    breaker: B,
    tenant: Tenant,
    model: Seq<char>,
    c: Seq<Candidate>,
)
    requires
        distinct(serving(cfg, model)),
        resolved(cfg, breaker, tenant, model) is Ok,
        candidates_for(cfg, c, resolved(cfg, breaker, tenant, model)->Ok_0),
    ensures
        swrr::regular(c),
{
    let all = serving(cfg, model);
    law_candidates_qualify(cfg, breaker, tenant, model);
    lemma_live_distinct(cfg, breaker, tenant, all);
    lemma_keyed_distinct(cfg, live_of(cfg, breaker, tenant, all));
}

proof fn lemma_live_distinct<B: BreakerView>(
    cfg: ConfigData,
    breaker: B,
    tenant: Tenant,
    ms: Seq<ModelProvider>,
)
    requires
        distinct(ms),
    ensures
        distinct(live_of(cfg, breaker, tenant, ms)),
    decreases ms.len(),
{
    if ms.len() > 0 {
        let d = ms.drop_last();
        lemma_drop_distinct(ms);
        lemma_live_distinct(cfg, breaker, tenant, d);
        let before = live_of(cfg, breaker, tenant, d);
        assert forall|i: int| 0 <= i < before.len() implies (#[trigger] before[i]).provider_id@
            != ms.last().provider_id@ by {
            lemma_live_of(cfg, breaker, tenant, d, i);
            let k = choose|k: int| 0 <= k < d.len() && d[k] == before[i];
            assert(ms[k] == before[i] && ms[ms.len() - 1] == ms.last());
        }
    }
}

proof fn lemma_keyed_distinct(cfg: ConfigData, ms: Seq<ModelProvider>)
    requires
        distinct(ms),
    ensures
        distinct(keyed_of(cfg, ms)),
    decreases ms.len(),
{
    if ms.len() > 0 {
        let d = ms.drop_last();
        lemma_drop_distinct(ms);
        lemma_keyed_distinct(cfg, d);
        let before = keyed_of(cfg, d);
        assert forall|i: int| 0 <= i < before.len() implies (#[trigger] before[i]).provider_id@
            != ms.last().provider_id@ by {
            lemma_keyed_of(cfg, d, i);
            let k = choose|k: int| 0 <= k < d.len() && d[k] == before[i];
            assert(ms[k] == before[i] && ms[ms.len() - 1] == ms.last());
        }
    }
}

proof fn lemma_drop_distinct(ms: Seq<ModelProvider>)
    requires
        distinct(ms),
        ms.len() > 0,
    ensures
        distinct(ms.drop_last()),
{
    let d = ms.drop_last();
    assert forall|i: int, j: int| 0 <= i < j < d.len() implies (#[trigger] d[i]).provider_id@ != (
    #[trigger] d[j]).provider_id@ by {
        assert(d[i] == ms[i] && d[j] == ms[j]);
    }
}

proof fn lemma_total_positive(c: Seq<Candidate>)
    requires
        forall|i: int| 0 <= i < c.len() ==> (#[trigger] c[i]).weight > 0,
    ensures
        swrr::total(c) >= c.len(),
    decreases c.len(),
{
    if c.len() > 0 {
        assert(c[c.len() - 1] == c.last());
        assert forall|i: int| 0 <= i < c.len() - 1 implies (
        #[trigger] c.drop_last()[i]).weight > 0 by {
            assert(c.drop_last()[i] == c[i]);
        }
        lemma_total_positive(c.drop_last());
    }
}

/// Where a request goes, from the configuration alone: to those providers of the model,
/// in their order, that weigh something, are known, alive and granted to the tenant, and
/// have an api-key. It fails, in this order, where the tenant is not granted the model,
/// where nobody serves it, where the tenant is disabled or has no providers, where none
/// of its providers is up, and where none of those has a key.
pub proof fn law_route_in_full<B: BreakerView>(
    cfg: ConfigData,
    breaker: B,
    tenant: Tenant,
    model: Seq<char>,
)
    ensures
        ({
            let allowed = cfg.tenant_models@.contains_key(tenant.id@)
                && cfg.tenant_models@[tenant.id@]@.contains(model);
            let all = if cfg.models_by_key@.contains_key(model) {
                cfg.models_by_key@[model]@
            } else {
                Seq::empty()
            };
            let own = if cfg.tenant_providers@.contains_key(tenant.id@) {
                cfg.tenant_providers@[tenant.id@]@
            } else {
                Seq::empty()
            };
            let up = all.filter(
                |m: ModelProvider|
                    {
                        &&& m.weight > 0
                        &&& cfg.providers@.contains_key(m.provider_id@)
                        &&& !breaker.dead(m.provider_id@)
                        &&& exists|i: int|
                            0 <= i < own.len() && (#[trigger] own[i])@ == m.provider_id@
                    },
            );
            let ready = up.filter(
                |m: ModelProvider|
                    cfg.provider_keys@.contains_key(m.provider_id@)
                        && cfg.provider_keys@[m.provider_id@]@.len() > 0,
            );
            match resolved(cfg, breaker, tenant, model) {
                Ok(ms) => allowed && tenant.enabled && ms == ready && ms.len() > 0,
                Err(RouteError::ModelNotAllowed) => !allowed,
                Err(RouteError::ModelNotFound) => allowed && all.len() == 0,
                Err(RouteError::TenantForbidden) => allowed && all.len() > 0 && (!tenant.enabled
                    || own.len() == 0),
                Err(RouteError::NoAvailableProvider) => allowed && all.len() > 0 && tenant.enabled
                    && own.len() > 0 && up.len() == 0,
                Err(RouteError::NoAvailableKey) => allowed && all.len() > 0 && tenant.enabled
                    && own.len() > 0 && up.len() > 0 && ready.len() == 0,
            }
        }),
{
    let own = granted(cfg, tenant);
    let all = serving(cfg, model);
    let up = |m: ModelProvider|
        {
            &&& m.weight > 0
            &&& cfg.providers@.contains_key(m.provider_id@)
            &&& !breaker.dead(m.provider_id@)
            &&& exists|i: int| 0 <= i < own.len() && (#[trigger] own[i])@ == m.provider_id@
        };
    lemma_live_is_filter(cfg, breaker, tenant, all, up);
    lemma_keyed_is_filter(
        cfg,
        live_of(cfg, breaker, tenant, all),
        |m: ModelProvider|
            cfg.provider_keys@.contains_key(m.provider_id@)
                && cfg.provider_keys@[m.provider_id@]@.len() > 0,
    );
}

proof fn lemma_live_is_filter<B: BreakerView>(
    cfg: ConfigData,
    breaker: B,
    tenant: Tenant,
    ms: Seq<ModelProvider>,
    p: spec_fn(ModelProvider) -> bool,
)
    requires
        forall|m: ModelProvider| #[trigger] p(m) <==> live(cfg, breaker, tenant, m),
    ensures
        live_of(cfg, breaker, tenant, ms) == ms.filter(p),
    decreases ms.len(),
{
    reveal(Seq::filter);
    if ms.len() > 0 {
        lemma_live_is_filter(cfg, breaker, tenant, ms.drop_last(), p);
        assert(p(ms.last()) <==> live(cfg, breaker, tenant, ms.last()));
    } else {
        assert(live_of(cfg, breaker, tenant, ms) =~= ms);
    }
}

proof fn lemma_keyed_is_filter(
    cfg: ConfigData,
    ms: Seq<ModelProvider>,
    p: spec_fn(ModelProvider) -> bool,
)
    requires
        forall|m: ModelProvider| #[trigger] p(m) <==> keyed(cfg, m),
    ensures
        keyed_of(cfg, ms) == ms.filter(p),
    decreases ms.len(),
{
    reveal(Seq::filter);
    if ms.len() > 0 {
        lemma_keyed_is_filter(cfg, ms.drop_last(), p);
        assert(p(ms.last()) <==> keyed(cfg, ms.last()));
    } else {
        assert(keyed_of(cfg, ms) =~= ms);
    }
}

/// A candidate is one of the found providers, at the same place, with the endpoint
/// that the provider has and the weight that the model lists it with.
pub proof fn law_candidates_are_the_found_providers(
    cfg: ConfigData,
    c: Seq<Candidate>,
    ms: Seq<ModelProvider>,
    i: int,
)
    requires
        candidates_for(cfg, c, ms),
        0 <= i < ms.len(),
    ensures
        c.len() == ms.len(),
        c[i].provider_id@ == ms[i].provider_id@,
        c[i].weight == ms[i].weight,
        c[i].endpoint@ == cfg.providers@[ms[i].provider_id@].endpoint@,
{
    assert(c[i].provider_id@ == ms[i].provider_id@);
}

} // verus!
