use hydra::auth::{AuthVerdict, CacheSource, Verdict};
use hydra::breaker::BreakerView;
use hydra::config::{CertMeta, ConcurrencyPolicy, ConfigData, ModelProvider};
use hydra::limit::MatchCtx;
use hydra::model::{
    Candidate, LimitRole, Provider, ProviderKey, ProviderKind, ProviderModel, RouteError, Tenant,
    TenantModel, TenantProvider, Usage, UsageRecord,
};
use hydra::rewrite::EndpointUrl;
use hydra::swrr::SwrrState;

#[test]
fn public_types_are_send_sync() {
    fn assert_send_sync<T: Send + Sync>() {}

    assert_send_sync::<Provider>();
    assert_send_sync::<ProviderModel>();
    assert_send_sync::<ProviderKey>();
    assert_send_sync::<Tenant>();
    assert_send_sync::<TenantProvider>();
    assert_send_sync::<TenantModel>();
    assert_send_sync::<LimitRole>();
    assert_send_sync::<Candidate>();
    assert_send_sync::<RouteError>();
    assert_send_sync::<ProviderKind>();
    assert_send_sync::<Usage>();
    assert_send_sync::<UsageRecord>();

    assert_send_sync::<ConfigData>();
    assert_send_sync::<ModelProvider>();
    assert_send_sync::<ConcurrencyPolicy>();
    assert_send_sync::<CertMeta>();

    assert_send_sync::<SwrrState>();
    assert_send_sync::<EndpointUrl>();
    assert_send_sync::<MatchCtx<'static>>();

    assert_send_sync::<Verdict>();
    assert_send_sync::<CacheSource>();
    assert_send_sync::<AuthVerdict>();

    assert_send_sync::<Box<dyn BreakerView>>();
}
