use lib::intelligence::{
    authorize_surface, check_candidates, check_cohort_size, check_same_space,
    check_source_shape, check_storage_shape, valid_opaque, validate_identity, ActorContext,
    AuditStatus, CandidateIdentity, EmbeddingError, IntelligenceAuditEvent, IntelligenceSurface,
    PolicyError, RegressionError, Role, SearchVisibility, EMBEDDING_SOURCE_DIMENSIONS_MAX,
    EMBEDDING_STORAGE_DIMENSIONS, SEARCH_CANDIDATES_MAX,
};

const TENANT: &str = "tenant_medellin";
const SUBJECT: &str = "subject_123";

fn actor<'a>(roles: &'a [Role], scopes: &'a [&'a str]) -> ActorContext<'a> {
    ActorContext {
        subject: Some(SUBJECT),
        tenant_id: Some(TENANT),
        roles,
        scopes,
    }
}

#[test]
fn public_surfaces_are_public_only() {
    let anonymous = ActorContext {
        subject: None,
        tenant_id: None,
        roles: &[],
        scopes: &[],
    };
    assert_eq!(
        authorize_surface(IntelligenceSurface::SalesVisitor, None, anonymous),
        Ok(SearchVisibility::Public)
    );
    assert_eq!(
        authorize_surface(IntelligenceSurface::ExternalSearch, Some(TENANT), anonymous),
        Err(PolicyError::PublicSurfaceCannotSelectTenant)
    );
}

#[test]
fn customer_support_requires_trusted_tenant_and_scope() {
    assert_eq!(
        authorize_surface(
            IntelligenceSurface::CustomerSupport,
            Some(TENANT),
            actor(&[Role::Resident], &["chat:support"]),
        ),
        Ok(SearchVisibility::Customer)
    );
    assert_eq!(
        authorize_surface(
            IntelligenceSurface::CustomerSupport,
            Some("tenant_other"),
            actor(&[Role::Resident], &["chat:support"]),
        ),
        Err(PolicyError::TenantMismatch)
    );
    assert_eq!(
        authorize_surface(
            IntelligenceSurface::CustomerSupport,
            Some(TENANT),
            actor(&[Role::Resident], &[]),
        ),
        Err(PolicyError::ScopeRequired)
    );
}

#[test]
fn internal_surfaces_require_role_and_scope() {
    assert_eq!(
        authorize_surface(
            IntelligenceSurface::InternalSearch,
            Some(TENANT),
            actor(&[Role::Owner], &["search:internal"]),
        ),
        Ok(SearchVisibility::Internal)
    );
    assert_eq!(
        authorize_surface(
            IntelligenceSurface::InternalSearch,
            Some(TENANT),
            actor(&[Role::Resident], &["search:internal"]),
        ),
        Err(PolicyError::PrivilegedRoleRequired)
    );
}

#[test]
fn admin_support_requires_admin_scope_and_privileged_role() {
    assert_eq!(
        authorize_surface(
            IntelligenceSurface::AdminOwnerSupport,
            Some(TENANT),
            actor(&[Role::Resident, Role::HouseManager], &["chat:admin"]),
        ),
        Ok(SearchVisibility::Internal)
    );
    assert_eq!(
        authorize_surface(
            IntelligenceSurface::AdminOwnerSupport,
            Some(TENANT),
            actor(&[Role::Administrator], &["chat:support"]),
        ),
        Err(PolicyError::ScopeRequired)
    );
    assert_eq!(
        authorize_surface(
            IntelligenceSurface::AdminOwnerSupport,
            Some(TENANT),
            actor(&[], &["chat:admin"]),
        ),
        Err(PolicyError::PrivilegedRoleRequired)
    );
}

#[test]
fn authenticated_surfaces_fail_closed() {
    let no_subject = ActorContext {
        subject: None,
        tenant_id: Some(TENANT),
        roles: &[Role::Owner],
        scopes: &["chat:support"],
    };
    assert_eq!(
        authorize_surface(IntelligenceSurface::CustomerSupport, Some(TENANT), no_subject),
        Err(PolicyError::AuthenticationRequired)
    );
    let bad_subject = ActorContext {
        subject: Some("https://evil"),
        tenant_id: Some(TENANT),
        roles: &[Role::Owner],
        scopes: &["chat:support"],
    };
    assert_eq!(
        authorize_surface(IntelligenceSurface::CustomerSupport, Some(TENANT), bad_subject),
        Err(PolicyError::AuthenticationRequired)
    );
    // No tenant on the route is a mismatch with the trusted tenant.
    assert_eq!(
        authorize_surface(
            IntelligenceSurface::CustomerSupport,
            None,
            actor(&[Role::Resident], &["chat:support"]),
        ),
        Err(PolicyError::TenantMismatch)
    );
    // An ill-formed route tenant never matches.
    assert_eq!(
        authorize_surface(
            IntelligenceSurface::InternalSearch,
            Some("tenant..medellin"),
            actor(&[Role::Owner], &["search:internal"]),
        ),
        Err(PolicyError::TenantMismatch)
    );
    // A scope must match exactly.
    assert_eq!(
        authorize_surface(
            IntelligenceSurface::InternalSearch,
            Some(TENANT),
            actor(&[Role::Owner], &["search:internal:extra", "search"]),
        ),
        Err(PolicyError::ScopeRequired)
    );
}

#[test]
fn public_surfaces_ignore_actor() {
    assert_eq!(
        authorize_surface(
            IntelligenceSurface::ExternalSearch,
            None,
            actor(&[Role::Owner], &["search:internal"]),
        ),
        Ok(SearchVisibility::Public)
    );
    assert_eq!(
        authorize_surface(
            IntelligenceSurface::SalesVisitor,
            Some("not a tenant"),
            actor(&[], &[]),
        ),
        Err(PolicyError::PublicSurfaceCannotSelectTenant)
    );
}

#[test]
fn opaque_identifiers() {
    assert!(valid_opaque("tenant_medellin"));
    assert!(valid_opaque("a"));
    assert!(valid_opaque("urn:tenant/42-x.y"));
    assert!(valid_opaque(&"a".repeat(256)));
    assert!(!valid_opaque(&"a".repeat(257)));
    assert!(!valid_opaque(""));
    assert!(!valid_opaque("_tenant"));
    assert!(!valid_opaque("tenant..x"));
    assert!(!valid_opaque("http://x"));
    assert!(!valid_opaque("tenant x"));
    assert!(!valid_opaque("ténant"));
    assert!(valid_opaque("a:/b"));
    assert!(valid_opaque("a.b.c"));
}

#[test]
fn identity_errors() {
    assert_eq!(validate_identity(TENANT, "model_v1"), Ok(()));
    assert_eq!(validate_identity("", "model_v1"), Err(EmbeddingError::InvalidTenant));
    assert_eq!(validate_identity("", ""), Err(EmbeddingError::InvalidTenant));
    assert_eq!(validate_identity(TENANT, "../model"), Err(EmbeddingError::InvalidModelRevision));
}

#[test]
fn source_and_storage_shapes() {
    assert_eq!(check_source_shape(TENANT, "model_v1", 2), Ok(()));
    assert_eq!(check_source_shape(TENANT, "model_v1", 0), Err(EmbeddingError::EmptySource));
    assert_eq!(
        check_source_shape(TENANT, "model_v1", EMBEDDING_SOURCE_DIMENSIONS_MAX),
        Ok(())
    );
    assert_eq!(
        check_source_shape(TENANT, "model_v1", EMBEDDING_SOURCE_DIMENSIONS_MAX + 1),
        Err(EmbeddingError::SourceTooWide)
    );
    assert_eq!(check_source_shape("bad tenant", "model_v1", 0), Err(EmbeddingError::InvalidTenant));
    assert_eq!(
        check_storage_shape(TENANT, "model_v1", EMBEDDING_STORAGE_DIMENSIONS),
        Ok(())
    );
    assert_eq!(
        check_storage_shape(TENANT, "model_v1", 1),
        Err(EmbeddingError::InvalidStorageDimensions)
    );
    assert_eq!(
        check_storage_shape(TENANT, "", 1),
        Err(EmbeddingError::InvalidModelRevision)
    );
}

#[test]
fn same_space_checks() {
    assert_eq!(check_same_space(TENANT, "model_v1", TENANT, "model_v1"), Ok(()));
    assert_eq!(
        check_same_space(TENANT, "model_v1", "tenant_other", "model_v1"),
        Err(EmbeddingError::TenantMismatch)
    );
    assert_eq!(
        check_same_space(TENANT, "model_v1", TENANT, "model_v2"),
        Err(EmbeddingError::ModelRevisionMismatch)
    );
    assert_eq!(
        check_same_space(TENANT, "model_v1", "tenant_other", "model_v2"),
        Err(EmbeddingError::TenantMismatch)
    );
}

fn candidate<'a>(id: &'a str, tenant: &'a str, model: &'a str) -> CandidateIdentity<'a> {
    CandidateIdentity {
        candidate_id: id,
        tenant_id: tenant,
        model_revision: model,
    }
}

#[test]
fn candidate_checks_go_in_order() {
    assert_eq!(check_candidates(TENANT, "model_v1", &[]), Ok(()));
    assert_eq!(
        check_candidates(
            TENANT,
            "model_v1",
            &[candidate("a_candidate", TENANT, "model_v1"), candidate("b", TENANT, "model_v1")]
        ),
        Ok(())
    );
    assert_eq!(
        check_candidates(
            TENANT,
            "model_v1",
            &[candidate("a_candidate", TENANT, "model_v2"), candidate("bad id", TENANT, "model_v1")]
        ),
        Err(EmbeddingError::ModelRevisionMismatch)
    );
    assert_eq!(
        check_candidates(
            TENANT,
            "model_v1",
            &[candidate("bad id", "tenant_other", "model_v1")]
        ),
        Err(EmbeddingError::InvalidCandidateId)
    );
    assert_eq!(
        check_candidates(
            TENANT,
            "model_v1",
            &[candidate("ok", TENANT, "model_v1"), candidate("ok2", "tenant_other", "model_v1")]
        ),
        Err(EmbeddingError::TenantMismatch)
    );
    let many = vec![candidate("bad id", TENANT, "model_v1"); SEARCH_CANDIDATES_MAX + 1];
    assert_eq!(
        check_candidates(TENANT, "model_v1", &many),
        Err(EmbeddingError::TooManyCandidates)
    );
    let full = vec![candidate("c", TENANT, "model_v1"); SEARCH_CANDIDATES_MAX];
    assert_eq!(check_candidates(TENANT, "model_v1", &full), Ok(()));
}

#[test]
fn cohort_sizes() {
    assert_eq!(check_cohort_size(9), Err(RegressionError::TooFewObservations));
    assert_eq!(check_cohort_size(10), Ok(()));
    assert_eq!(check_cohort_size(10_000), Ok(()));
    assert_eq!(check_cohort_size(10_001), Err(RegressionError::TooManyObservations));
}

#[test]
fn audit_event_is_content_free() {
    let event = IntelligenceAuditEvent {
        surface: IntelligenceSurface::InternalSearch,
        status: AuditStatus::Completed,
        candidate_count: 1000,
        result_count: 100,
    };
    let copy = event;
    assert_eq!(copy, event);
    assert_ne!(
        event,
        IntelligenceAuditEvent { status: AuditStatus::Denied, ..event }
    );
    let debug = format!("{event:?}");
    assert!(debug.contains("InternalSearch"));
}

#[test]
fn actor_summary_is_redacted() {
    let context = actor(&[Role::Resident], &["chat:support"]);
    assert_eq!(
        context.redacted_summary(),
        "ActorContext { authenticated: true, tenant_bound: true, role_count: 1, scope_count: 1 }"
    );
    let summary = context.redacted_summary();
    assert!(!summary.contains(TENANT));
    assert!(!summary.contains(SUBJECT));
    assert!(!summary.contains("chat:support"));
    let roles = [Role::Owner; 12];
    let anonymous = ActorContext {
        subject: None,
        tenant_id: Some("not valid tenant"),
        roles: &roles,
        scopes: &[],
    };
    assert_eq!(
        anonymous.redacted_summary(),
        "ActorContext { authenticated: false, tenant_bound: true, role_count: 12, scope_count: 0 }"
    );
}

#[test]
fn actor_context_helpers() {
    let context = actor(&[Role::Resident, Role::Owner], &["chat:support", "search:internal"]);
    assert!(context.authenticated());
    assert!(context.has_scope("search:internal"));
    assert!(!context.has_scope("chat:admin"));
    assert!(context.has_privileged_role());
    assert!(!actor(&[Role::Resident], &[]).has_privileged_role());
}
