//! Building a configuration from the tables of a database.

use vstd::hash_map::StringHashMap;
use vstd::hash_set::StringHashSet;
use vstd::prelude::*;

use crate::config::{CertMeta, ConfigData, ModelProvider};
use crate::model::{
    LimitRole, Provider, ProviderKey, ProviderModel, Tenant, TenantModel, TenantProvider,
};
use crate::text;

verus! {

/// What a database holds, table by table.
pub struct Tables {
    pub providers: Vec<Provider>,
    pub provider_models: Vec<ProviderModel>,
    pub provider_keys: Vec<ProviderKey>,
    pub tenants: Vec<Tenant>,
    pub tenant_providers: Vec<TenantProvider>,
    pub tenant_models: Vec<TenantModel>,
    pub limit_roles: Vec<LimitRole>,
}

// ---------------------------------------------------------------------------
// Entries by key
// ---------------------------------------------------------------------------

/// What the entries have under `key`, in order.
pub open spec fn values<V>(entries: Seq<(Seq<char>, V)>, key: Seq<char>) -> Seq<V>
    decreases entries.len(),
{
    if entries.len() == 0 {
        Seq::empty()
    } else {
        let before = values(entries.drop_last(), key);
        if entries.last().0 == key {
            before.push(entries.last().1)
        } else {
            before
        }
    }
}

/// The entries, with the text of each key.
pub open spec fn keyed<V>(entries: Seq<(String, V)>) -> Seq<(Seq<char>, V)> {
    entries.map_values(|e: (String, V)| (e.0@, e.1))
}

/// Under each key `m` has all that the entries have there. A key without any is
/// missing.
pub open spec fn groups<V>(m: Map<Seq<char>, Vec<V>>, entries: Seq<(Seq<char>, V)>) -> bool {
    forall|k: Seq<char>|
        {
            &&& #[trigger] m.contains_key(k) <==> values(entries, k).len() > 0
            &&& m.contains_key(k) ==> m[k]@ == values(entries, k)
        }
}

/// Under each key `m` has the last that the entries have there. A key without
/// any is missing.
pub open spec fn indexes<V>(m: Map<Seq<char>, V>, entries: Seq<(Seq<char>, V)>) -> bool {
    forall|k: Seq<char>|
        {
            &&& #[trigger] m.contains_key(k) <==> values(entries, k).len() > 0
            &&& m.contains_key(k) ==> m[k] == values(entries, k).last()
        }
}

proof fn lemma_values_some<V>(entries: Seq<(Seq<char>, V)>, i: int)
    requires
        0 <= i < entries.len(),
    ensures
        values(entries, entries[i].0).len() > 0,
    decreases entries.len(),
{
    if i < entries.len() - 1 {
        lemma_values_some(entries.drop_last(), i);
    }
}

proof fn lemma_values_none<V>(entries: Seq<(Seq<char>, V)>, key: Seq<char>)
    requires
        forall|i: int| 0 <= i < entries.len() ==> (#[trigger] entries[i]).0 != key,
    ensures
        values(entries, key).len() == 0,
    decreases entries.len(),
{
    if entries.len() > 0 {
        lemma_values_none(entries.drop_last(), key);
    }
}

fn values_of<V: Clone>(entries: &Vec<(String, V)>, key: &str) -> (r: Vec<V>)
    requires
        forall|a: V, b: V| cloned(a, b) ==> a == b,
    ensures
        r@ == values(keyed(entries@), key@),
{
    let mut out: Vec<V> = Vec::new();
    let mut i: usize = 0;
    assert(keyed(entries@).take(0) =~= Seq::empty());
    while i < entries.len()
        invariant
            i <= entries@.len(),
            out@ == values(keyed(entries@).take(i as int), key@),
            forall|a: V, b: V| cloned(a, b) ==> a == b,
        decreases entries@.len() - i,
    {
        assert(keyed(entries@).take(i + 1).drop_last() =~= keyed(entries@).take(i as int));
        let e = &entries[i];
        if text::same(e.0.as_str(), key) {
            let v = e.1.clone();
            assert(cloned(e.1, v));
            out.push(v);
        }
        i = i + 1;
    }
    assert(keyed(entries@).take(entries@.len() as int) =~= keyed(entries@));
    out
}

fn grouped<V: Clone>(entries: &Vec<(String, V)>) -> (m: StringHashMap<Vec<V>>)
    requires
        forall|a: V, b: V| cloned(a, b) ==> a == b,
    ensures
        groups(m@, keyed(entries@)),
{
    let ghost all = keyed(entries@);
    let mut m: StringHashMap<Vec<V>> = StringHashMap::new();
    let mut i: usize = 0;
    while i < entries.len()
        invariant
            i <= entries@.len(),
            all == keyed(entries@),
            forall|a: V, b: V| cloned(a, b) ==> a == b,
            forall|j: int| 0 <= j < i ==> m@.contains_key((#[trigger] all[j]).0),
            forall|k: Seq<char>| #[trigger]
                m@.contains_key(k) ==> values(all, k).len() > 0 && m@[k]@ == values(all, k),
        decreases entries@.len() - i,
    {
        let key = &entries[i].0;
        if !m.contains_key(key.as_str()) {
            let list = values_of(entries, key.as_str());
            proof {
                lemma_values_some(all, i as int);
            }
            m.insert(key.clone(), list);
        }
        i = i + 1;
    }
    proof {
        assert forall|k: Seq<char>| values(all, k).len() > 0 implies #[trigger] m@.contains_key(
            k,
        ) by {
            if !m@.contains_key(k) {
                lemma_values_none(all, k);
            }
        }
    }
    m
}

fn indexed<V: Clone>(entries: &Vec<(String, V)>) -> (m: StringHashMap<V>)
    requires
        forall|a: V, b: V| cloned(a, b) ==> a == b,
    ensures
        indexes(m@, keyed(entries@)),
{
    let ghost all = keyed(entries@);
    let mut m: StringHashMap<V> = StringHashMap::new();
    let mut i: usize = 0;
    while i < entries.len()
        invariant
            i <= entries@.len(),
            all == keyed(entries@),
            forall|a: V, b: V| cloned(a, b) ==> a == b,
            indexes(m@, all.take(i as int)),
        decreases entries@.len() - i,
    {
        assert(all.take(i + 1).drop_last() =~= all.take(i as int));
        let v = entries[i].1.clone();
        assert(cloned(entries@[i as int].1, v));
        m.insert(entries[i].0.clone(), v);
        i = i + 1;
    }
    assert(all.take(entries@.len() as int) =~= all);
    m
}

// ---------------------------------------------------------------------------
// The entries of each table
// ---------------------------------------------------------------------------

/// Providers by id.
pub open spec fn provider_entries(rows: Seq<Provider>) -> Seq<(Seq<char>, Provider)> {
    rows.map_values(|p: Provider| (p.id@, p))
}

/// Api-keys by provider.
pub open spec fn key_entries(rows: Seq<ProviderKey>) -> Seq<(Seq<char>, String)> {
    rows.map_values(|k: ProviderKey| (k.provider_id@, k.api_key))
}

/// Tenants by domain, in lower case.
pub open spec fn tenant_entries(rows: Seq<Tenant>) -> Seq<(Seq<char>, Tenant)> {
    rows.map_values(|t: Tenant| (text::lower(t.domain@), t))
}

/// Providers by the tenant that may use them.
pub open spec fn grant_entries(rows: Seq<TenantProvider>) -> Seq<(Seq<char>, String)> {
    rows.map_values(|g: TenantProvider| (g.tenant_id@, g.provider_id))
}

/// Models by the tenant that may use them.
pub open spec fn model_grant_entries(rows: Seq<TenantModel>) -> Seq<(Seq<char>, String)> {
    rows.map_values(|g: TenantModel| (g.tenant_id@, g.model_key))
}

/// The online models of known providers, by model key, with the provider's
/// weight.
pub open spec fn online_entries(
    rows: Seq<ProviderModel>,
    providers: Map<Seq<char>, Provider>,
) -> Seq<(Seq<char>, ModelProvider)>
    decreases rows.len(),
{
    if rows.len() == 0 {
        Seq::empty()
    } else {
        let before = online_entries(rows.drop_last(), providers);
        let m = rows.last();
        if m.status == 1 && providers.contains_key(m.provider_id@) {
            before.push(
                (
                    m.key@,
                    ModelProvider {
                        provider_id: m.provider_id,
                        weight: providers[m.provider_id@].weight,
                    },
                ),
            )
        } else {
            before
        }
    }
}

/// The certificates of the tenants that name one, by domain.
pub open spec fn cert_entries(rows: Seq<Tenant>) -> Seq<(Seq<char>, CertMeta)>
    decreases rows.len(),
{
    if rows.len() == 0 {
        Seq::empty()
    } else {
        let before = cert_entries(rows.drop_last());
        let t = rows.last();
        if t.cert_file is Some || t.cert_key is Some {
            before.push(
                (
                    text::lower(t.domain@),
                    CertMeta { domain: t.domain, cert_file: t.cert_file, cert_key: t.cert_key },
                ),
            )
        } else {
            before
        }
    }
}

/// The enabled roles, in order.
pub open spec fn enabled_roles(rows: Seq<LimitRole>) -> Seq<LimitRole>
    decreases rows.len(),
{
    if rows.len() == 0 {
        Seq::empty()
    } else {
        let before = enabled_roles(rows.drop_last());
        if rows.last().enabled {
            before.push(rows.last())
        } else {
            before
        }
    }
}

/// The texts of `s`.
pub open spec fn text_set(s: Seq<String>) -> Set<Seq<char>> {
    s.map_values(|t: String| t@).to_set()
}

/// Under each key `m` has the set of all that the entries have there.
pub open spec fn groups_sets(
    m: Map<Seq<char>, StringHashSet>,
    entries: Seq<(Seq<char>, String)>,
) -> bool {
    forall|k: Seq<char>|
        {
            &&& #[trigger] m.contains_key(k) <==> values(entries, k).len() > 0
            &&& m.contains_key(k) ==> m[k]@ == text_set(values(entries, k))
        }
}

fn lower_text(s: &str) -> (r: String)
    ensures
        r@ == text::lower(s@),
{
    let chars = text::chars_of(s);
    assert(chars@.subrange(0, chars@.len() as int) =~= s@);
    text::lower_text_of(chars.as_slice(), 0, chars.len())
}

fn index_providers(rows: &Vec<Provider>) -> (m: StringHashMap<Provider>)
    ensures
        indexes(m@, provider_entries(rows@)),
{
    let mut entries: Vec<(String, Provider)> = Vec::new();
    let mut i: usize = 0;
    while i < rows.len()
        invariant
            i <= rows@.len(),
            entries@.len() == i,
            forall|j: int|
                0 <= j < i ==> (#[trigger] entries@[j]).0@ == rows@[j].id@ && entries@[j].1 == rows@[j],
        decreases rows@.len() - i,
    {
        entries.push((rows[i].id.clone(), rows[i].clone()));
        i = i + 1;
    }
    assert(keyed(entries@) =~= provider_entries(rows@));
    indexed(&entries)
}

fn group_keys(rows: &Vec<ProviderKey>) -> (m: StringHashMap<Vec<String>>)
    ensures
        groups(m@, key_entries(rows@)),
{
    let mut entries: Vec<(String, String)> = Vec::new();
    let mut i: usize = 0;
    while i < rows.len()
        invariant
            i <= rows@.len(),
            entries@.len() == i,
            forall|j: int|
                0 <= j < i ==> (#[trigger] entries@[j]).0@ == rows@[j].provider_id@ && entries@[j].1 == rows@[j].api_key,
        decreases rows@.len() - i,
    {
        entries.push((rows[i].provider_id.clone(), rows[i].api_key.clone()));
        i = i + 1;
    }
    assert(keyed(entries@) =~= key_entries(rows@));
    grouped(&entries)
}

fn index_tenants(rows: &Vec<Tenant>) -> (m: StringHashMap<Tenant>)
    ensures
        indexes(m@, tenant_entries(rows@)),
{
    let mut entries: Vec<(String, Tenant)> = Vec::new();
    let mut i: usize = 0;
    while i < rows.len()
        invariant
            i <= rows@.len(),
            entries@.len() == i,
            forall|j: int|
                0 <= j < i ==> (#[trigger] entries@[j]).0@ == text::lower(rows@[j].domain@) && entries@[j].1 == rows@[j],
        decreases rows@.len() - i,
    {
        entries.push((lower_text(rows[i].domain.as_str()), rows[i].clone()));
        i = i + 1;
    }
    assert(keyed(entries@) =~= tenant_entries(rows@));
    indexed(&entries)
}

fn group_grants(rows: &Vec<TenantProvider>) -> (m: StringHashMap<Vec<String>>)
    ensures
        groups(m@, grant_entries(rows@)),
{
    let mut entries: Vec<(String, String)> = Vec::new();
    let mut i: usize = 0;
    while i < rows.len()
        invariant
            i <= rows@.len(),
            entries@.len() == i,
            forall|j: int|
                0 <= j < i ==> (#[trigger] entries@[j]).0@ == rows@[j].tenant_id@ && entries@[j].1 == rows@[j].provider_id,
        decreases rows@.len() - i,
    {
        entries.push((rows[i].tenant_id.clone(), rows[i].provider_id.clone()));
        i = i + 1;
    }
    assert(keyed(entries@) =~= grant_entries(rows@));
    grouped(&entries)
}

fn group_models(rows: &Vec<ProviderModel>, providers: &StringHashMap<Provider>) -> (m:
    StringHashMap<Vec<ModelProvider>>)
    ensures
        groups(m@, online_entries(rows@, providers@)),
{
    let mut entries: Vec<(String, ModelProvider)> = Vec::new();
    let mut i: usize = 0;
    assert(keyed(entries@) =~= online_entries(rows@.take(0), providers@));
    while i < rows.len()
        invariant
            i <= rows@.len(),
            keyed(entries@) == online_entries(rows@.take(i as int), providers@),
        decreases rows@.len() - i,
    {
        assert(rows@.take(i + 1).drop_last() =~= rows@.take(i as int));
        let row = &rows[i];
        if row.status == 1 {
            if let Some(p) = providers.get(row.provider_id.as_str()) {
                let served = ModelProvider {
                    provider_id: row.provider_id.clone(),
                    weight: p.weight,
                };
                entries.push((row.key.clone(), served));
            }
        }
        i = i + 1;
        assert(keyed(entries@) =~= online_entries(rows@.take(i as int), providers@));
    }
    assert(rows@.take(rows@.len() as int) =~= rows@);
    grouped(&entries)
}

fn index_certs(rows: &Vec<Tenant>) -> (m: StringHashMap<CertMeta>)
    ensures
        indexes(m@, cert_entries(rows@)),
{
    let mut entries: Vec<(String, CertMeta)> = Vec::new();
    let mut i: usize = 0;
    assert(keyed(entries@) =~= cert_entries(rows@.take(0)));
    while i < rows.len()
        invariant
            i <= rows@.len(),
            keyed(entries@) == cert_entries(rows@.take(i as int)),
        decreases rows@.len() - i,
    {
        assert(rows@.take(i + 1).drop_last() =~= rows@.take(i as int));
        let row = &rows[i];
        if row.cert_file.is_some() || row.cert_key.is_some() {
            let meta = CertMeta {
                domain: row.domain.clone(),
                cert_file: row.cert_file.clone(),
                cert_key: row.cert_key.clone(),
            };
            entries.push((lower_text(row.domain.as_str()), meta));
        }
        i = i + 1;
        assert(keyed(entries@) =~= cert_entries(rows@.take(i as int)));
    }
    assert(rows@.take(rows@.len() as int) =~= rows@);
    indexed(&entries)
}

fn keep_enabled(rows: &Vec<LimitRole>) -> (r: Vec<LimitRole>)
    ensures
        r@ == enabled_roles(rows@),
{
    let mut out: Vec<LimitRole> = Vec::new();
    let mut i: usize = 0;
    assert(rows@.take(0) =~= Seq::empty());
    while i < rows.len()
        invariant
            i <= rows@.len(),
            out@ == enabled_roles(rows@.take(i as int)),
        decreases rows@.len() - i,
    {
        assert(rows@.take(i + 1).drop_last() =~= rows@.take(i as int));
        if rows[i].enabled {
            out.push(rows[i].clone());
        }
        i = i + 1;
    }
    assert(rows@.take(rows@.len() as int) =~= rows@);
    out
}

fn set_of(list: &Vec<String>) -> (r: StringHashSet)
    ensures
        r@ == text_set(list@),
{
    let mut out = StringHashSet::new();
    let mut i: usize = 0;
    while i < list.len()
        invariant
            i <= list@.len(),
            forall|t: Seq<char>| #[trigger]
                out@.contains(t) <==> exists|j: int| 0 <= j < i && (#[trigger] list@[j])@ == t,
        decreases list@.len() - i,
    {
        out.insert(list[i].clone());
        i = i + 1;
    }
    proof {
        let texts = list@.map_values(|t: String| t@);
        assert forall|t: Seq<char>| out@.contains(t) <==> text_set(list@).contains(t) by {
            if text_set(list@).contains(t) {
                let j = choose|j: int| 0 <= j < texts.len() && texts[j] == t;
                assert(list@[j]@ == t);
            }
            if out@.contains(t) {
                let j = choose|j: int| 0 <= j < list@.len() && (#[trigger] list@[j])@ == t;
                assert(texts[j] == t);
            }
        }
        assert(out@ =~= text_set(list@));
    }
    out
}

fn group_model_grants(rows: &Vec<TenantModel>) -> (m: StringHashMap<StringHashSet>)
    ensures
        groups_sets(m@, model_grant_entries(rows@)),
{
    let mut entries: Vec<(String, String)> = Vec::new();
    let mut i: usize = 0;
    while i < rows.len()
        invariant
            i <= rows@.len(),
            entries@.len() == i,
            forall|j: int|
                0 <= j < i ==> (#[trigger] entries@[j]).0@ == rows@[j].tenant_id@ && entries@[j].1 == rows@[j].model_key,
        decreases rows@.len() - i,
    {
        entries.push((rows[i].tenant_id.clone(), rows[i].model_key.clone()));
        i = i + 1;
    }
    let ghost all = keyed(entries@);
    assert(keyed(entries@) =~= model_grant_entries(rows@));
    let mut m: StringHashMap<StringHashSet> = StringHashMap::new();
    let mut j: usize = 0;
    while j < entries.len()
        invariant
            j <= entries@.len(),
            all == keyed(entries@),
            forall|k: int| 0 <= k < j ==> m@.contains_key((#[trigger] all[k]).0),
            forall|k: Seq<char>| #[trigger]
                m@.contains_key(k) ==> values(all, k).len() > 0 && m@[k]@ == text_set(
                    values(all, k),
                ),
        decreases entries@.len() - j,
    {
        let tenant = &entries[j].0;
        if !m.contains_key(tenant.as_str()) {
            let models = values_of(&entries, tenant.as_str());
            proof {
                lemma_values_some(all, j as int);
            }
            m.insert(tenant.clone(), set_of(&models));
        }
        j = j + 1;
    }
    proof {
        assert forall|k: Seq<char>| values(all, k).len() > 0 implies #[trigger] m@.contains_key(
            k,
        ) by {
            if !m@.contains_key(k) {
                lemma_values_none(all, k);
            }
        }
    }
    m
}

impl ConfigData {
    /// The configuration that the tables hold.
    pub fn build(tables: &Tables) -> (r: Self)
        ensures
            indexes(r.providers@, provider_entries(tables.providers@)),
            groups(r.provider_keys@, key_entries(tables.provider_keys@)),
            indexes(r.tenants_by_domain@, tenant_entries(tables.tenants@)),
            groups(r.tenant_providers@, grant_entries(tables.tenant_providers@)),
            groups_sets(r.tenant_models@, model_grant_entries(tables.tenant_models@)),
            groups(r.models_by_key@, online_entries(tables.provider_models@, r.providers@)),
            indexes(r.certs@, cert_entries(tables.tenants@)),
            r.limit_roles@ == enabled_roles(tables.limit_roles@),
    {
        let providers = index_providers(&tables.providers);
        ConfigData {
            tenants_by_domain: index_tenants(&tables.tenants),
            models_by_key: group_models(&tables.provider_models, &providers),
            tenant_providers: group_grants(&tables.tenant_providers),
            tenant_models: group_model_grants(&tables.tenant_models),
            providers,
            provider_keys: group_keys(&tables.provider_keys),
            limit_roles: keep_enabled(&tables.limit_roles),
            certs: index_certs(&tables.tenants),
        }
    }
}

// ---------------------------------------------------------------------------
// Laws
// ---------------------------------------------------------------------------

/// The row has `m` for `key`: it is online, and the weight is its provider's.
pub open spec fn serves(
    row: ProviderModel,
    providers: Map<Seq<char>, Provider>,
    key: Seq<char>,
    m: ModelProvider,
) -> bool {
    &&& row.status == 1
    &&& row.key@ == key
    &&& row.provider_id == m.provider_id
    &&& providers.contains_key(m.provider_id@)
    &&& providers[m.provider_id@].weight == m.weight
}

/// A provider is listed for a model exactly where some row has it there online.
pub proof fn law_only_online_models_are_served(
    rows: Seq<ProviderModel>,
    providers: Map<Seq<char>, Provider>,
    key: Seq<char>,
    m: ModelProvider,
)
    ensures
        values(online_entries(rows, providers), key).contains(m) <==> exists|j: int|
            0 <= j < rows.len() && serves(#[trigger] rows[j], providers, key, m),
    decreases rows.len(),
{
    if rows.len() > 0 {
        let less = rows.drop_last();
        let last = rows.last();
        let before = online_entries(less, providers);
        let now = online_entries(rows, providers);
        law_only_online_models_are_served(less, providers, key, m);
        let old_values = values(before, key);
        let new_values = values(now, key);
        if now != before {
            assert(now.drop_last() =~= before);
        }
        if new_values.contains(m) {
            let i = choose|i: int| 0 <= i < new_values.len() && new_values[i] == m;
            if i < old_values.len() {
                assert(old_values[i] == m);
                let j = choose|j: int|
                    0 <= j < less.len() && serves(#[trigger] less[j], providers, key, m);
                assert(serves(rows[j], providers, key, m));
            } else {
                assert(serves(rows[rows.len() - 1], providers, key, m));
            }
        }
        if exists|j: int| 0 <= j < rows.len() && serves(#[trigger] rows[j], providers, key, m) {
            let j = choose|j: int|
                0 <= j < rows.len() && serves(#[trigger] rows[j], providers, key, m);
            if j < rows.len() - 1 {
                assert(serves(less[j], providers, key, m));
                let i = choose|i: int| 0 <= i < old_values.len() && old_values[i] == m;
                assert(new_values[i] == m);
            } else {
                assert(new_values.last() == m);
                assert(new_values[new_values.len() - 1] == m);
            }
        }
    }
}

/// A limit role is loaded exactly where its row is enabled. No other field of the row
/// has a part in it, and the roles keep the order of their rows.
pub proof fn law_every_enabled_role_is_loaded(rows: Seq<LimitRole>)
    ensures
        enabled_roles(rows) == rows.filter(|r: LimitRole| r.enabled),
        forall|i: int|
            0 <= i < rows.len() && rows[i].enabled ==> enabled_roles(rows).contains(
                #[trigger] rows[i],
            ),
        forall|r: LimitRole| #[trigger]
            enabled_roles(rows).contains(r) ==> rows.contains(r) && r.enabled,
{
    lemma_enabled_roles(rows);
    let keep = |r: LimitRole| r.enabled;
    assert forall|i: int| 0 <= i < rows.len() && rows[i].enabled implies enabled_roles(
        rows,
    ).contains(#[trigger] rows[i]) by {
        lemma_filter_keeps(rows, keep, i);
    }
    assert forall|r: LimitRole| #[trigger] enabled_roles(rows).contains(r) implies rows.contains(r)
        && r.enabled by {
        let kept = rows.filter(keep);
        let i = choose|i: int| 0 <= i < kept.len() && kept[i] == r;
        lemma_filter_gives(rows, keep, i);
    }
}

proof fn lemma_filter_gives<R>(rows: Seq<R>, keep: spec_fn(R) -> bool, i: int)
    requires
        0 <= i < rows.filter(keep).len(),
    ensures
        keep(rows.filter(keep)[i]),
        rows.contains(rows.filter(keep)[i]),
    decreases rows.len(),
{
    reveal(Seq::filter);
    let less = rows.drop_last();
    if rows.len() > 0 && i < less.filter(keep).len() {
        lemma_filter_gives(less, keep, i);
        let j = choose|j: int| 0 <= j < less.len() && less[j] == less.filter(keep)[i];
        assert(rows[j] == less[j]);
    } else if rows.len() > 0 {
        assert(rows[rows.len() - 1] == rows.last());
    }
}

proof fn lemma_filter_keeps<R>(rows: Seq<R>, keep: spec_fn(R) -> bool, j: int)
    requires
        0 <= j < rows.len(),
        keep(rows[j]),
    ensures
        rows.filter(keep).contains(rows[j]),
    decreases rows.len(),
{
    reveal(Seq::filter);
    let less = rows.drop_last();
    if j < less.len() {
        lemma_filter_keeps(less, keep, j);
        let i = choose|i: int| 0 <= i < less.filter(keep).len() && less.filter(keep)[i] == less[j];
        assert(rows.filter(keep)[i] == rows[j]);
    } else {
        assert(rows.filter(keep).last() == rows[j]);
        assert(rows.filter(keep)[rows.filter(keep).len() - 1] == rows[j]);
    }
}

proof fn lemma_enabled_roles(rows: Seq<LimitRole>)
    ensures
        enabled_roles(rows) == rows.filter(|r: LimitRole| r.enabled),
    decreases rows.len(),
{
    reveal(Seq::filter);
    if rows.len() > 0 {
        lemma_enabled_roles(rows.drop_last());
    } else {
        assert(enabled_roles(rows) =~= rows);
    }
}

/// What the rows give under `key`, where `keep` says which rows do, and `read` what
/// they give.
proof fn lemma_values_of_rows<R, V>(
    rows: Seq<R>,
    entry: spec_fn(R) -> (Seq<char>, V),
    key: Seq<char>,
    keep: spec_fn(R) -> bool,
    read: spec_fn(R) -> V,
)
    requires
        forall|r: R| #[trigger] keep(r) <==> entry(r).0 == key,
        forall|r: R| #[trigger] read(r) == entry(r).1,
    ensures
        values(rows.map_values(entry), key) == rows.filter(keep).map_values(read),
        values(rows.map_values(entry), key).len() > 0 <==> exists|j: int|
            0 <= j < rows.len() && keep(#[trigger] rows[j]),
    decreases rows.len(),
{
    reveal(Seq::filter);
    let entries = rows.map_values(entry);
    if rows.len() > 0 {
        let less = rows.drop_last();
        lemma_values_of_rows(less, entry, key, keep, read);
        assert(entries.drop_last() =~= less.map_values(entry));
        assert(entries.last() == entry(rows.last()));
        let before = less.filter(keep);
        assert(keep(rows.last()) <==> entry(rows.last()).0 == key);
        assert(read(rows.last()) == entry(rows.last()).1);
        if keep(rows.last()) {
            assert(before.push(rows.last()).map_values(read) =~= before.map_values(read).push(
                read(rows.last()),
            ));
            assert(keep(rows[rows.len() - 1]));
        }
        if exists|j: int| 0 <= j < less.len() && keep(#[trigger] less[j]) {
            let j = choose|j: int| 0 <= j < less.len() && keep(#[trigger] less[j]);
            assert(keep(rows[j]));
        }
        if exists|j: int| 0 <= j < rows.len() && keep(#[trigger] rows[j]) {
            let j = choose|j: int| 0 <= j < rows.len() && keep(#[trigger] rows[j]);
            if j < less.len() {
                assert(keep(less[j]));
            }
        }
    } else {
        assert(entries =~= Seq::empty());
        assert(rows.filter(keep).map_values(read) =~= Seq::empty());
    }
}

/// A provider has exactly the api-keys of its rows, in their order.
pub proof fn law_provider_has_its_keys(
    m: Map<Seq<char>, Vec<String>>,
    rows: Seq<ProviderKey>,
    id: Seq<char>,
)
    requires
        groups(m, key_entries(rows)),
    ensures
        m.contains_key(id) <==> exists|j: int|
            0 <= j < rows.len() && (#[trigger] rows[j]).provider_id@ == id,
        m.contains_key(id) ==> m[id]@ == rows.filter(
            |r: ProviderKey| r.provider_id@ == id,
        ).map_values(|r: ProviderKey| r.api_key),
{
    lemma_values_of_rows(
        rows,
        |k: ProviderKey| (k.provider_id@, k.api_key),
        id,
        |r: ProviderKey| r.provider_id@ == id,
        |r: ProviderKey| r.api_key,
    );
    assert(m.contains_key(id) <==> values(key_entries(rows), id).len() > 0);
}

/// A tenant may use exactly the providers that its rows grant.
pub proof fn law_tenant_has_its_providers(
    m: Map<Seq<char>, Vec<String>>,
    rows: Seq<TenantProvider>,
    id: Seq<char>,
)
    requires
        groups(m, grant_entries(rows)),
    ensures
        m.contains_key(id) <==> exists|j: int|
            0 <= j < rows.len() && (#[trigger] rows[j]).tenant_id@ == id,
        m.contains_key(id) ==> m[id]@ == rows.filter(
            |r: TenantProvider| r.tenant_id@ == id,
        ).map_values(|r: TenantProvider| r.provider_id),
{
    lemma_values_of_rows(
        rows,
        |g: TenantProvider| (g.tenant_id@, g.provider_id),
        id,
        |r: TenantProvider| r.tenant_id@ == id,
        |r: TenantProvider| r.provider_id,
    );
    assert(m.contains_key(id) <==> values(grant_entries(rows), id).len() > 0);
}

/// A tenant may use a model exactly where a row grants it.
pub proof fn law_tenant_has_its_models(
    m: Map<Seq<char>, StringHashSet>,
    rows: Seq<TenantModel>,
    id: Seq<char>,
    model: Seq<char>,
)
    requires
        groups_sets(m, model_grant_entries(rows)),
    ensures
        m.contains_key(id) && m[id]@.contains(model) <==> exists|j: int|
            0 <= j < rows.len() && (#[trigger] rows[j]).tenant_id@ == id && rows[j].model_key@
                == model,
        m.contains_key(id) <==> exists|j: int|
            0 <= j < rows.len() && (#[trigger] rows[j]).tenant_id@ == id,
{
    let keep = |r: TenantModel| r.tenant_id@ == id;
    let read = |r: TenantModel| r.model_key;
    lemma_values_of_rows(
        rows,
        |g: TenantModel| (g.tenant_id@, g.model_key),
        id,
        keep,
        read,
    );
    assert(m.contains_key(id) <==> values(model_grant_entries(rows), id).len() > 0);
    let kept = rows.filter(keep);
    let list = values(model_grant_entries(rows), id);
    let texts = list.map_values(|t: String| t@);
    if m.contains_key(id) && m[id]@.contains(model) {
        let k = choose|k: int| 0 <= k < texts.len() && texts[k] == model;
        lemma_filter_gives(rows, keep, k);
        let j = choose|j: int| 0 <= j < rows.len() && rows[j] == kept[k];
        assert(rows[j].tenant_id@ == id && rows[j].model_key@ == model);
    }
    if exists|j: int|
        0 <= j < rows.len() && (#[trigger] rows[j]).tenant_id@ == id && rows[j].model_key@
            == model {
        let j = choose|j: int|
            0 <= j < rows.len() && (#[trigger] rows[j]).tenant_id@ == id && rows[j].model_key@
                == model;
        lemma_filter_keeps(rows, keep, j);
        let k = choose|k: int| 0 <= k < kept.len() && kept[k] == rows[j];
        assert(texts[k] == model);
    }
}

/// A provider is known by its id exactly where a row has that id, and then by the last
/// such row.
pub proof fn law_provider_is_its_row(
    m: Map<Seq<char>, Provider>,
    rows: Seq<Provider>,
    id: Seq<char>,
)
    requires
        indexes(m, provider_entries(rows)),
    ensures
        m.contains_key(id) <==> exists|j: int|
            0 <= j < rows.len() && (#[trigger] rows[j]).id@ == id,
        m.contains_key(id) ==> m[id] == rows.filter(|r: Provider| r.id@ == id).last(),
        m.contains_key(id) ==> m[id].id@ == id,
{
    let keep = |r: Provider| r.id@ == id;
    lemma_values_of_rows(rows, |p: Provider| (p.id@, p), id, keep, |r: Provider| r);
    assert(m.contains_key(id) <==> values(provider_entries(rows), id).len() > 0);
    let kept = rows.filter(keep);
    if m.contains_key(id) {
        assert(values(provider_entries(rows), id).last() == kept.last());
        lemma_filter_gives(rows, keep, kept.len() - 1);
    }
}

/// A tenant is found under its domain in lower case, whether it is enabled or not;
/// where several have one domain, it is the last.
pub proof fn law_tenant_is_found_by_its_domain(
    m: Map<Seq<char>, Tenant>,
    rows: Seq<Tenant>,
    domain: Seq<char>,
)
    requires
        indexes(m, tenant_entries(rows)),
    ensures
        m.contains_key(domain) <==> exists|j: int|
            0 <= j < rows.len() && text::lower((#[trigger] rows[j]).domain@) == domain,
        m.contains_key(domain) ==> m[domain] == rows.filter(
            |t: Tenant| text::lower(t.domain@) == domain,
        ).last(),
{
    let keep = |t: Tenant| text::lower(t.domain@) == domain;
    lemma_values_of_rows(
        rows,
        |t: Tenant| (text::lower(t.domain@), t),
        domain,
        keep,
        |t: Tenant| t,
    );
    assert(m.contains_key(domain) <==> values(tenant_entries(rows), domain).len() > 0);
    if m.contains_key(domain) {
        assert(values(tenant_entries(rows), domain).last() == rows.filter(keep).last());
    }
}

/// A model is served by the providers of its online rows, each with the provider's
/// own weight, in the order of the rows; a row of an unknown provider does not count.
pub proof fn law_model_is_served_by_its_online_rows(
    rows: Seq<ProviderModel>,
    providers: Map<Seq<char>, Provider>,
    key: Seq<char>,
)
    ensures
        values(online_entries(rows, providers), key) == rows.filter(
            |r: ProviderModel|
                r.key@ == key && r.status == 1 && providers.contains_key(r.provider_id@),
        ).map_values(
            |r: ProviderModel|
                ModelProvider {
                    provider_id: r.provider_id,
                    weight: providers[r.provider_id@].weight,
                },
        ),
    decreases rows.len(),
{
    reveal(Seq::filter);
    let keep = |r: ProviderModel|
        r.key@ == key && r.status == 1 && providers.contains_key(r.provider_id@);
    let read = |r: ProviderModel|
        ModelProvider { provider_id: r.provider_id, weight: providers[r.provider_id@].weight };
    if rows.len() > 0 {
        let less = rows.drop_last();
        law_model_is_served_by_its_online_rows(less, providers, key);
        let before = online_entries(less, providers);
        let now = online_entries(rows, providers);
        if now != before {
            assert(now.drop_last() =~= before);
        }
        let kept = less.filter(keep);
        if keep(rows.last()) {
            assert(kept.push(rows.last()).map_values(read) =~= kept.map_values(read).push(
                read(rows.last()),
            ));
        }
    } else {
        assert(rows.filter(keep).map_values(read) =~= Seq::empty());
    }
}

/// A tenant that names a certificate file or a key file has a certificate under its
/// domain, and no other tenant has.
pub proof fn law_certificates_are_the_tenants(
    m: Map<Seq<char>, CertMeta>,
    rows: Seq<Tenant>,
    domain: Seq<char>,
)
    requires
        indexes(m, cert_entries(rows)),
    ensures
        ({
            let kept = rows.filter(
                |t: Tenant|
                    text::lower(t.domain@) == domain && (t.cert_file is Some || t.cert_key is Some),
            );
            &&& m.contains_key(domain) <==> kept.len() > 0
            &&& m.contains_key(domain) ==> {
                &&& m[domain].domain == kept.last().domain
                &&& m[domain].cert_file == kept.last().cert_file
                &&& m[domain].cert_key == kept.last().cert_key
            }
        }),
{
    lemma_certificates(rows, domain);
    assert(m.contains_key(domain) <==> values(cert_entries(rows), domain).len() > 0);
}

proof fn lemma_certificates(rows: Seq<Tenant>, domain: Seq<char>)
    ensures
        ({
            let kept = rows.filter(
                |t: Tenant|
                    text::lower(t.domain@) == domain && (t.cert_file is Some || t.cert_key is Some),
            );
            let found = values(cert_entries(rows), domain);
            &&& found.len() == kept.len()
            &&& found.len() > 0 ==> {
                &&& found.last().domain == kept.last().domain
                &&& found.last().cert_file == kept.last().cert_file
                &&& found.last().cert_key == kept.last().cert_key
            }
        }),
    decreases rows.len(),
{
    reveal(Seq::filter);
    if rows.len() > 0 {
        let less = rows.drop_last();
        lemma_certificates(less, domain);
        let before = cert_entries(less);
        let now = cert_entries(rows);
        if now != before {
            assert(now.drop_last() =~= before);
        }
    }
}

} // verus!
