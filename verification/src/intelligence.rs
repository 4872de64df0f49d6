//! Fail-closed authorization for chat and search surfaces, and the identity
//! checks that bind embeddings to a tenant and a model revision.
//!
//! Authentication material is established by the server middleware: the
//! context handed to these functions is the trusted one, never fields taken
//! from a browser request body.
use vstd::prelude::*;

use crate::text;
use crate::text::{char_is_ascii_alphanumeric, chars_of, push_bool, push_decimal, str_eq};

verus! {

pub const EMBEDDING_SOURCE_DIMENSIONS_MAX: usize = 4096;

pub const EMBEDDING_STORAGE_DIMENSIONS: usize = 4100;

pub const DISCOVERY_OBSERVATIONS_MIN: usize = 10;

pub const DISCOVERY_OBSERVATIONS_MAX: usize = 10_000;

pub const SEARCH_CANDIDATES_MAX: usize = 1_000;

/// The most hits a ranking hands back, whatever limit is asked for.
pub const SEARCH_RESULTS_MAX: usize = 100;

/// The longest opaque identifier, in characters.
pub const OPAQUE_ID_MAX_LEN: usize = 256;

#[derive(Clone, Copy, Debug, Eq, PartialEq, Structural)]
pub enum Role {
    Resident,
    HouseManager,
    Owner,
    Administrator,
}

#[derive(Clone, Copy, Debug, Eq, PartialEq, Structural)]
pub enum IntelligenceSurface {
    SalesVisitor,
    CustomerSupport,
    AdminOwnerSupport,
    ExternalSearch,
    InternalSearch,
}

#[derive(Clone, Copy, Debug, Eq, PartialEq, Structural)]
pub enum SearchVisibility {
    Public,
    Customer,
    Internal,
}

#[derive(Clone, Copy, Debug, Eq, PartialEq, Structural)]
pub enum PolicyError {
    PublicSurfaceCannotSelectTenant,
    AuthenticationRequired,
    TenantMismatch,
    ScopeRequired,
    PrivilegedRoleRequired,
}

/// The trusted, server-established identity of a caller.
#[derive(Clone, Copy)]
pub struct ActorContext<'a> {
    pub subject: Option<&'a str>,
    pub tenant_id: Option<&'a str>,
    pub roles: &'a [Role],
    pub scopes: &'a [&'a str],
}

// ---------------------------------------------------------------------------
// Opaque identifiers
// ---------------------------------------------------------------------------

/// `pat` occurs in `s` starting at `i`.
pub open spec fn occurs_at(s: Seq<char>, pat: Seq<char>, i: int) -> bool {
    0 <= i && i + pat.len() <= s.len() && s.subrange(i, i + pat.len()) == pat
}

/// `pat` occurs somewhere in `s`, as `str::contains` asks.
pub open spec fn contains_str(s: Seq<char>, pat: Seq<char>) -> bool {
    exists|i: int| occurs_at(s, pat, i)
}

/// A character that may follow the first one of an opaque identifier.
pub open spec fn opaque_tail_char(c: char) -> bool {
    text::is_ascii_alphanumeric(c) || c == '.' || c == '_' || c == ':' || c == '/' || c == '-'
}

/// An opaque identifier (subject, tenant, model revision, candidate): 1 to 256
/// characters, an ASCII letter or digit first, then letters, digits and
/// `. _ : / -`, with no `..` and no `://` anywhere.
pub open spec fn spec_valid_opaque(s: Seq<char>) -> bool {
    &&& 0 < s.len() <= OPAQUE_ID_MAX_LEN
    &&& !contains_str(s, ".."@)
    &&& !contains_str(s, "://"@)
    &&& text::is_ascii_alphanumeric(s[0])
    &&& forall|i: int| 1 <= i < s.len() ==> opaque_tail_char(#[trigger] s[i])
}

proof fn lemma_occurs_two(s: Seq<char>, i: int)
    ensures
        occurs_at(s, ".."@, i) <==> (0 <= i && i + 1 < s.len() && s[i] == '.' && s[i + 1]
            == '.'),
{
    reveal_strlit("..");
    if 0 <= i && i + 1 < s.len() && s[i] == '.' && s[i + 1] == '.' {
        assert(s.subrange(i, i + 2) =~= ".."@);
    }
    if occurs_at(s, ".."@, i) {
        assert(s.subrange(i, i + 2)[0] == s[i]);
        assert(s.subrange(i, i + 2)[1] == s[i + 1]);
    }
}

proof fn lemma_occurs_three(s: Seq<char>, i: int)
    ensures
        occurs_at(s, "://"@, i) <==> (0 <= i && i + 2 < s.len() && s[i] == ':' && s[i + 1]
            == '/' && s[i + 2] == '/'),
{
    reveal_strlit("://");
    if 0 <= i && i + 2 < s.len() && s[i] == ':' && s[i + 1] == '/' && s[i + 2] == '/' {
        assert(s.subrange(i, i + 3) =~= "://"@);
    }
    if occurs_at(s, "://"@, i) {
        assert(s.subrange(i, i + 3)[0] == s[i]);
        assert(s.subrange(i, i + 3)[1] == s[i + 1]);
        assert(s.subrange(i, i + 3)[2] == s[i + 2]);
    }
}

/// An opaque identifier is ASCII, so its UTF-8 encoding has one byte per
/// character: the bound of 256 holds of its length in bytes as well.
pub proof fn lemma_valid_opaque_is_ascii(s: Seq<char>)
    requires
        spec_valid_opaque(s),
    ensures
        vstd::utf8::is_ascii_chars(s),
        vstd::utf8::encode_utf8(s).len() == s.len(),
        vstd::utf8::encode_utf8(s).len() <= OPAQUE_ID_MAX_LEN,
{
    assert forall|i: int| 0 <= i < s.len() implies '\0' <= #[trigger] s[i] <= '\u{7f}' by {
        if i > 0 {
            assert(opaque_tail_char(s[i]));
        }
    }
    vstd::utf8::is_ascii_chars_encode_utf8(s);
}

/// Which identifiers are opaque ids, character by character: between 1 and
/// 256 characters; the first an ASCII letter or digit; each other one an
/// ASCII letter or digit or one of `. _ : / -`; no `.` directly followed by
/// `.`, and no `:` directly followed by `//`.
pub proof fn lemma_valid_opaque_characters(s: Seq<char>)
    ensures
        spec_valid_opaque(s) <==> {
            &&& 1 <= s.len() <= 256
            &&& ('a' <= s[0] <= 'z' || 'A' <= s[0] <= 'Z' || '0' <= s[0] <= '9')
            &&& forall|i: int|
                1 <= i < s.len() ==> ('a' <= #[trigger] s[i] <= 'z' || 'A' <= s[i] <= 'Z' || '0'
                    <= s[i] <= '9' || s[i] == '.' || s[i] == '_' || s[i] == ':' || s[i] == '/'
                    || s[i] == '-')
            &&& forall|i: int| 0 <= i && i + 1 < s.len() ==> !(#[trigger] s[i] == '.' && s[i + 1] == '.')
            &&& forall|i: int|
                0 <= i && i + 2 < s.len() ==> !(#[trigger] s[i] == ':' && s[i + 1] == '/' && s[i + 2]
                    == '/')
        },
{
    let no_pair = forall|i: int| 0 <= i && i + 1 < s.len() ==> !(#[trigger] s[i] == '.' && s[i + 1] == '.');
    let no_sep = forall|i: int|
        0 <= i && i + 2 < s.len() ==> !(#[trigger] s[i] == ':' && s[i + 1] == '/' && s[i + 2] == '/');
    assert(no_pair <==> !contains_str(s, ".."@)) by {
        if no_pair {
            assert forall|i: int| !occurs_at(s, ".."@, i) by {
                lemma_occurs_two(s, i);
            }
        }
        if !contains_str(s, ".."@) {
            assert forall|i: int| 0 <= i && i + 1 < s.len() implies !(#[trigger] s[i] == '.' && s[i + 1]
                == '.') by {
                lemma_occurs_two(s, i);
            }
        }
    }
    assert(no_sep <==> !contains_str(s, "://"@)) by {
        if no_sep {
            assert forall|i: int| !occurs_at(s, "://"@, i) by {
                lemma_occurs_three(s, i);
            }
        }
        if !contains_str(s, "://"@) {
            assert forall|i: int| 0 <= i && i + 2 < s.len() implies !(#[trigger] s[i] == ':' && s[i
                + 1] == '/' && s[i + 2] == '/') by {
                lemma_occurs_three(s, i);
            }
        }
    }
}

pub fn valid_opaque(value: &str) -> (r: bool)
    ensures
        r == spec_valid_opaque(value@),
{
    let v = chars_of(value);
    let n = v.len();
    if n == 0 || n > OPAQUE_ID_MAX_LEN {
        return false;
    }
    if !char_is_ascii_alphanumeric(v[0]) {
        return false;
    }
    let mut i: usize = 0;
    while i < n
        invariant
            v@ == value@,
            n == v@.len(),
            0 < n <= OPAQUE_ID_MAX_LEN,
            i <= n,
            text::is_ascii_alphanumeric(v@[0]),
            forall|j: int| 1 <= j < i ==> opaque_tail_char(#[trigger] v@[j]),
            forall|j: int| 0 <= j < i ==> !occurs_at(v@, ".."@, j),
            forall|j: int| 0 <= j < i ==> !occurs_at(v@, "://"@, j),
        decreases n - i,
    {
        let c = v[i];
        proof {
            lemma_occurs_two(v@, i as int);
            lemma_occurs_three(v@, i as int);
        }
        if i > 0 && !(char_is_ascii_alphanumeric(c) || c == '.' || c == '_' || c == ':' || c
            == '/' || c == '-') {
            return false;
        }
        if i + 1 < n && c == '.' && v[i + 1] == '.' {
            proof {
                assert(contains_str(v@, ".."@));
            }
            return false;
        }
        if i + 2 < n && c == ':' && v[i + 1] == '/' && v[i + 2] == '/' {
            proof {
                assert(contains_str(v@, "://"@));
            }
            return false;
        }
        i = i + 1;
    }
    proof {
        assert forall|j: int| !occurs_at(v@, ".."@, j) by {
            if 0 <= j < n {
            } else {
                lemma_occurs_two(v@, j);
            }
        }
        assert forall|j: int| !occurs_at(v@, "://"@, j) by {
            if 0 <= j < n {
            } else {
                lemma_occurs_three(v@, j);
            }
        }
    }
    true
}

// ---------------------------------------------------------------------------
// Actor context
// ---------------------------------------------------------------------------

pub open spec fn opt_str_view(o: Option<&str>) -> Option<Seq<char>> {
    match o {
        Some(s) => Some(s@),
        None => None,
    }
}

pub open spec fn is_privileged(role: Role) -> bool {
    role == Role::HouseManager || role == Role::Owner || role == Role::Administrator
}

impl<'a> ActorContext<'a> {
    /// Both the subject and the tenant are present and well-formed.
    pub open spec fn spec_authenticated(self) -> bool {
        &&& self.subject matches Some(s) && spec_valid_opaque(s@)
        &&& self.tenant_id matches Some(t) && spec_valid_opaque(t@)
    }

    /// One of the granted scopes is exactly `scope`.
    pub open spec fn spec_has_scope(self, scope: Seq<char>) -> bool {
        exists|i: int| 0 <= i < self.scopes@.len() && (#[trigger] self.scopes@[i])@ == scope
    }

    /// One of the roles is house manager, owner or administrator.
    pub open spec fn spec_has_privileged_role(self) -> bool {
        exists|i: int| 0 <= i < self.roles@.len() && is_privileged(#[trigger] self.roles@[i])
    }

    /// The redacted description of the context: whether it is authenticated and
    /// bound to a tenant, and how many roles and scopes it holds, never the
    /// subject, tenant, role or scope values themselves.
    pub open spec fn spec_redacted_summary(self) -> Seq<char> {
        "ActorContext { authenticated: "@ + text::bool_text(self.spec_authenticated())
            + ", tenant_bound: "@ + text::bool_text(self.tenant_id is Some) + ", role_count: "@
            + text::decimal(self.roles@.len()) + ", scope_count: "@ + text::decimal(
            self.scopes@.len(),
        ) + " }"@
    }

    /// A debug description that is safe to log: see `spec_redacted_summary`.
    pub fn redacted_summary(&self) -> (r: String)
        ensures
            r@ == self.spec_redacted_summary(),
    {
        let mut out = String::new();
        out.append("ActorContext { authenticated: ");
        push_bool(&mut out, self.authenticated());
        out.append(", tenant_bound: ");
        push_bool(&mut out, self.tenant_id.is_some());
        out.append(", role_count: ");
        push_decimal(&mut out, self.roles.len());
        out.append(", scope_count: ");
        push_decimal(&mut out, self.scopes.len());
        out.append(" }");
        assert(out@ =~= self.spec_redacted_summary());
        out
    }

    pub fn authenticated(&self) -> (r: bool)
        ensures
            r == self.spec_authenticated(),
    {
        let subject_ok = match self.subject {
            Some(s) => valid_opaque(s),
            None => false,
        };
        let tenant_ok = match self.tenant_id {
            Some(t) => valid_opaque(t),
            None => false,
        };
        subject_ok && tenant_ok
    }

    pub fn has_scope(&self, required: &str) -> (r: bool)
        ensures
            r == self.spec_has_scope(required@),
    {
        let scopes = self.scopes;
        let mut i: usize = 0;
        while i < scopes.len()
            invariant
                scopes@ == self.scopes@,
                i <= scopes@.len(),
                forall|j: int| 0 <= j < i ==> (#[trigger] scopes@[j])@ != required@,
            decreases scopes@.len() - i,
        {
            if str_eq(scopes[i], required) {
                return true;
            }
            i = i + 1;
        }
        false
    }

    pub fn has_privileged_role(&self) -> (r: bool)
        ensures
            r == self.spec_has_privileged_role(),
    {
        let roles = self.roles;
        let mut i: usize = 0;
        while i < roles.len()
            invariant
                roles@ == self.roles@,
                i <= roles@.len(),
                forall|j: int| 0 <= j < i ==> !is_privileged(#[trigger] roles@[j]),
            decreases roles@.len() - i,
        {
            match roles[i] {
                Role::HouseManager | Role::Owner | Role::Administrator => {
                    return true;
                },
                Role::Resident => {},
            }
            i = i + 1;
        }
        false
    }
}

/// The summary, spelled out: `ActorContext { authenticated: A, tenant_bound:
/// B, role_count: R, scope_count: S }`, where `A` is whether subject and tenant
/// are both present and well-formed, `B` whether a tenant is present, and `R`
/// and `S` the decimal numbers of roles and scopes.
pub proof fn lemma_redacted_summary_text(actor: ActorContext)
    ensures
        ({
            let authenticated = (actor.subject matches Some(s) && spec_valid_opaque(s@))
                && (actor.tenant_id matches Some(t) && spec_valid_opaque(t@));
            let yes_no = |b: bool| if b { "true"@ } else { "false"@ };
            actor.spec_redacted_summary() == "ActorContext { authenticated: "@ + yes_no(authenticated)
                + ", tenant_bound: "@ + yes_no(actor.tenant_id is Some) + ", role_count: "@
                + text::decimal(actor.roles@.len()) + ", scope_count: "@ + text::decimal(
                actor.scopes@.len(),
            ) + " }"@
        }),
{
}

/// Redaction: the summary of a context depends only on whether it is
/// authenticated, whether it is bound to a tenant and how many roles and
/// scopes it holds; two contexts that agree on these, whatever their subjects,
/// tenants, roles and scopes, are described alike.
pub proof fn lemma_redacted_summary_hides_values(a: ActorContext, b: ActorContext)
    requires
        a.spec_authenticated() == b.spec_authenticated(),
        (a.tenant_id is Some) == (b.tenant_id is Some),
        a.roles@.len() == b.roles@.len(),
        a.scopes@.len() == b.scopes@.len(),
    ensures
        a.spec_redacted_summary() == b.spec_redacted_summary(),
{
}

// ---------------------------------------------------------------------------
// Surface authorization
// ---------------------------------------------------------------------------

/// The tenant check of the authenticated surfaces: the actor must be
/// authenticated, and the requested tenant, when well-formed, must be the
/// actor's own (an ill-formed request counts as no tenant at all).
pub open spec fn spec_require_same_tenant(requested: Option<Seq<char>>, actor: ActorContext) -> Result<(), PolicyError> {
    if !actor.spec_authenticated() {
        Err(PolicyError::AuthenticationRequired)
    } else {
        let filtered = match requested {
            Some(t) => if spec_valid_opaque(t) {
                Some(t)
            } else {
                None
            },
            None => None,
        };
        if filtered != opt_str_view(actor.tenant_id) {
            Err(PolicyError::TenantMismatch)
        } else {
            Ok(())
        }
    }
}

/// The maximum corpus visibility that a surface grants, or the first check
/// that the request fails.
pub open spec fn spec_authorize_surface(
    surface: IntelligenceSurface,
    requested: Option<Seq<char>>,
    actor: ActorContext,
) -> Result<SearchVisibility, PolicyError> {
    match surface {
        IntelligenceSurface::SalesVisitor | IntelligenceSurface::ExternalSearch => {
            if requested is Some {
                Err(PolicyError::PublicSurfaceCannotSelectTenant)
            } else {
                Ok(SearchVisibility::Public)
            }
        },
        IntelligenceSurface::CustomerSupport => {
            match spec_require_same_tenant(requested, actor) {
                Err(e) => Err(e),
                Ok(()) => if !actor.spec_has_scope("chat:support"@) {
                    Err(PolicyError::ScopeRequired)
                } else {
                    Ok(SearchVisibility::Customer)
                },
            }
        },
        IntelligenceSurface::AdminOwnerSupport => {
            match spec_require_same_tenant(requested, actor) {
                Err(e) => Err(e),
                Ok(()) => if !actor.spec_has_scope("chat:admin"@) {
                    Err(PolicyError::ScopeRequired)
                } else if !actor.spec_has_privileged_role() {
                    Err(PolicyError::PrivilegedRoleRequired)
                } else {
                    Ok(SearchVisibility::Internal)
                },
            }
        },
        IntelligenceSurface::InternalSearch => {
            match spec_require_same_tenant(requested, actor) {
                Err(e) => Err(e),
                Ok(()) => if !actor.spec_has_scope("search:internal"@) {
                    Err(PolicyError::ScopeRequired)
                } else if !actor.spec_has_privileged_role() {
                    Err(PolicyError::PrivilegedRoleRequired)
                } else {
                    Ok(SearchVisibility::Internal)
                },
            }
        },
    }
}

fn require_same_tenant(requested_tenant: Option<&str>, actor: ActorContext<'_>) -> (r: Result<
    (),
    PolicyError,
>)
    ensures
        r == spec_require_same_tenant(opt_str_view(requested_tenant), actor),
{
    if !actor.authenticated() {
        return Err(PolicyError::AuthenticationRequired);
    }
    let requested_tenant = match requested_tenant {
        Some(value) => if valid_opaque(value) {
            Some(value)
        } else {
            None
        },
        None => None,
    };
    let same = match (requested_tenant, actor.tenant_id) {
        (Some(a), Some(b)) => str_eq(a, b),
        (None, None) => true,
        _ => false,
    };
    if !same {
        return Err(PolicyError::TenantMismatch);
    }
    Ok(())
}

/// Returns the maximum corpus visibility for a server-authenticated context.
///
/// Public surfaces cannot select a tenant. Authenticated surfaces require the
/// same tenant in the trusted actor context and the request route, plus a fixed
/// scope. Admin and internal search also require a privileged role.
pub fn authorize_surface(
    surface: IntelligenceSurface,
    requested_tenant: Option<&str>,
    actor: ActorContext<'_>,
) -> (r: Result<SearchVisibility, PolicyError>)
    ensures
        r == spec_authorize_surface(surface, opt_str_view(requested_tenant), actor),
{
    match surface {
        IntelligenceSurface::SalesVisitor | IntelligenceSurface::ExternalSearch => {
            if requested_tenant.is_some() {
                return Err(PolicyError::PublicSurfaceCannotSelectTenant);
            }
            Ok(SearchVisibility::Public)
        },
        IntelligenceSurface::CustomerSupport => {
            require_same_tenant(requested_tenant, actor)?;
            if !actor.has_scope("chat:support") {
                return Err(PolicyError::ScopeRequired);
            }
            Ok(SearchVisibility::Customer)
        },
        IntelligenceSurface::AdminOwnerSupport => {
            require_same_tenant(requested_tenant, actor)?;
            if !actor.has_scope("chat:admin") {
                return Err(PolicyError::ScopeRequired);
            }
            if !actor.has_privileged_role() {
                return Err(PolicyError::PrivilegedRoleRequired);
            }
            Ok(SearchVisibility::Internal)
        },
        IntelligenceSurface::InternalSearch => {
            require_same_tenant(requested_tenant, actor)?;
            if !actor.has_scope("search:internal") {
                return Err(PolicyError::ScopeRequired);
            }
            if !actor.has_privileged_role() {
                return Err(PolicyError::PrivilegedRoleRequired);
            }
            Ok(SearchVisibility::Internal)
        },
    }
}


// ---------------------------------------------------------------------------
// Laws of the surface policy
// ---------------------------------------------------------------------------

/// The widest corpus each surface may reach.
pub open spec fn surface_max_visibility(surface: IntelligenceSurface) -> SearchVisibility {
    match surface {
        IntelligenceSurface::SalesVisitor => SearchVisibility::Public,
        IntelligenceSurface::ExternalSearch => SearchVisibility::Public,
        IntelligenceSurface::CustomerSupport => SearchVisibility::Customer,
        IntelligenceSurface::AdminOwnerSupport => SearchVisibility::Internal,
        IntelligenceSurface::InternalSearch => SearchVisibility::Internal,
    }
}

pub open spec fn is_public_surface(surface: IntelligenceSurface) -> bool {
    surface == IntelligenceSurface::SalesVisitor || surface == IntelligenceSurface::ExternalSearch
}

/// The whole surface policy, stated over the actor's fields: public surfaces
/// grant the public corpus exactly when no tenant is requested. Every other
/// surface answers, in this order: `AuthenticationRequired` unless subject and
/// tenant are both present and well-formed; `TenantMismatch` unless the
/// requested tenant is exactly the actor's tenant; `ScopeRequired` unless some
/// scope is exactly the surface's scope (`chat:support`, `chat:admin`,
/// `search:internal`); for admin support and internal search,
/// `PrivilegedRoleRequired` unless some role is house manager, owner or
/// administrator; and otherwise the grant: customer support the customer
/// corpus, the two others the internal corpus.
pub proof fn lemma_authorize_surface_decides(
    surface: IntelligenceSurface,
    requested: Option<Seq<char>>,
    actor: ActorContext,
)
    ensures
        ({
            let authenticated = (actor.subject matches Some(s) && spec_valid_opaque(s@))
                && (actor.tenant_id matches Some(t) && spec_valid_opaque(t@));
            let same_tenant = actor.tenant_id matches Some(t) && requested == Some(t@);
            let scope = match surface {
                IntelligenceSurface::CustomerSupport => "chat:support"@,
                IntelligenceSurface::AdminOwnerSupport => "chat:admin"@,
                _ => "search:internal"@,
            };
            let has_scope = exists|i: int|
                0 <= i < actor.scopes@.len() && (#[trigger] actor.scopes@[i])@ == scope;
            let privileged = exists|i: int|
                0 <= i < actor.roles@.len() && (#[trigger] actor.roles@[i] == Role::HouseManager
                    || actor.roles@[i] == Role::Owner || actor.roles@[i] == Role::Administrator);
            let needs_role = surface != IntelligenceSurface::CustomerSupport;
            let granted = if surface == IntelligenceSurface::CustomerSupport {
                SearchVisibility::Customer
            } else {
                SearchVisibility::Internal
            };
            spec_authorize_surface(surface, requested, actor) == if surface
                == IntelligenceSurface::SalesVisitor || surface
                == IntelligenceSurface::ExternalSearch {
                if requested is None {
                    Ok(SearchVisibility::Public)
                } else {
                    Err(PolicyError::PublicSurfaceCannotSelectTenant)
                }
            } else if !authenticated {
                Err(PolicyError::AuthenticationRequired)
            } else if !same_tenant {
                Err(PolicyError::TenantMismatch)
            } else if !has_scope {
                Err(PolicyError::ScopeRequired)
            } else if needs_role && !privileged {
                Err(PolicyError::PrivilegedRoleRequired)
            } else {
                Ok(granted)
            }
        }),
{
    let scope = match surface {
        IntelligenceSurface::CustomerSupport => "chat:support"@,
        IntelligenceSurface::AdminOwnerSupport => "chat:admin"@,
        _ => "search:internal"@,
    };
    assert(actor.spec_has_scope(scope) <==> exists|i: int|
        0 <= i < actor.scopes@.len() && (#[trigger] actor.scopes@[i])@ == scope);
    assert(actor.spec_has_privileged_role() <==> exists|i: int|
        0 <= i < actor.roles@.len() && (#[trigger] actor.roles@[i] == Role::HouseManager
            || actor.roles@[i] == Role::Owner || actor.roles@[i] == Role::Administrator)) by {
        if actor.spec_has_privileged_role() {
            let i = choose|i: int| 0 <= i < actor.roles@.len() && is_privileged(#[trigger] actor.roles@[i]);
            assert(actor.roles@[i] == Role::HouseManager || actor.roles@[i] == Role::Owner
                || actor.roles@[i] == Role::Administrator);
        }
        if exists|i: int|
            0 <= i < actor.roles@.len() && (#[trigger] actor.roles@[i] == Role::HouseManager
                || actor.roles@[i] == Role::Owner || actor.roles@[i] == Role::Administrator) {
            let i = choose|i: int|
                0 <= i < actor.roles@.len() && (#[trigger] actor.roles@[i] == Role::HouseManager
                    || actor.roles@[i] == Role::Owner || actor.roles@[i] == Role::Administrator);
            assert(is_privileged(actor.roles@[i]));
        }
    }
}

/// A granted request reaches exactly the surface's maximum corpus, never more.
pub proof fn lemma_grant_is_surface_maximum(
    surface: IntelligenceSurface,
    requested: Option<Seq<char>>,
    actor: ActorContext,
)
    ensures
        spec_authorize_surface(surface, requested, actor) matches Ok(v) ==> v
            == surface_max_visibility(surface),
{
}

/// Public surfaces cannot select a tenant: asking one for a tenant is refused,
/// and without a tenant they grant the public corpus to anyone.
pub proof fn lemma_public_surface_cannot_select_tenant(
    surface: IntelligenceSurface,
    requested: Option<Seq<char>>,
    actor: ActorContext,
)
    requires
        is_public_surface(surface),
    ensures
        requested is Some ==> spec_authorize_surface(surface, requested, actor) == Err::<
            SearchVisibility,
            PolicyError,
        >(PolicyError::PublicSurfaceCannotSelectTenant),
        requested is None ==> spec_authorize_surface(surface, requested, actor) == Ok::<
            SearchVisibility,
            PolicyError,
        >(SearchVisibility::Public),
{
}

/// Customer and internal corpora never cross a tenant boundary: a grant on an
/// authenticated surface means the actor is authenticated and the requested
/// tenant is exactly the actor's trusted tenant.
pub proof fn lemma_grant_is_tenant_bound(
    surface: IntelligenceSurface,
    requested: Option<Seq<char>>,
    actor: ActorContext,
)
    requires
        !is_public_surface(surface),
        spec_authorize_surface(surface, requested, actor) is Ok,
    ensures
        actor.spec_authenticated(),
        requested is Some,
        requested == opt_str_view(actor.tenant_id),
{
}

/// The policy fails closed: without trusted authentication no authenticated
/// surface is granted, whatever tenant is requested.
pub proof fn lemma_unauthenticated_is_refused(
    surface: IntelligenceSurface,
    requested: Option<Seq<char>>,
    actor: ActorContext,
)
    requires
        !is_public_surface(surface),
        !actor.spec_authenticated(),
    ensures
        spec_authorize_surface(surface, requested, actor) == Err::<SearchVisibility, PolicyError>(
            PolicyError::AuthenticationRequired,
        ),
{
}

/// Each authenticated surface is granted only with its fixed scope, and the
/// internal corpus only with a privileged role as well.
pub proof fn lemma_grant_requires_scope_and_role(
    surface: IntelligenceSurface,
    requested: Option<Seq<char>>,
    actor: ActorContext,
)
    requires
        spec_authorize_surface(surface, requested, actor) is Ok,
    ensures
        surface == IntelligenceSurface::CustomerSupport ==> actor.spec_has_scope("chat:support"@),
        surface == IntelligenceSurface::AdminOwnerSupport ==> actor.spec_has_scope("chat:admin"@)
            && actor.spec_has_privileged_role(),
        surface == IntelligenceSurface::InternalSearch ==> actor.spec_has_scope(
            "search:internal"@,
        ) && actor.spec_has_privileged_role(),
        spec_authorize_surface(surface, requested, actor) == Ok::<SearchVisibility, PolicyError>(
            SearchVisibility::Internal,
        ) ==> actor.spec_has_privileged_role(),
{
}

// ---------------------------------------------------------------------------
// Embedding identity
// ---------------------------------------------------------------------------

#[derive(Clone, Copy, Debug, Eq, PartialEq, Structural)]
pub enum EmbeddingError {
    InvalidTenant,
    InvalidModelRevision,
    EmptySource,
    SourceTooWide,
    InvalidStorageDimensions,
    NonFiniteValue,
    ZeroVector,
    NotNormalized,
    NonZeroPadding,
    TenantMismatch,
    ModelRevisionMismatch,
    TooManyCandidates,
    InvalidCandidateId,
}

pub open spec fn spec_validate_identity(tenant_id: Seq<char>, model_revision: Seq<char>) -> Result<(), EmbeddingError> {
    if !spec_valid_opaque(tenant_id) {
        Err(EmbeddingError::InvalidTenant)
    } else if !spec_valid_opaque(model_revision) {
        Err(EmbeddingError::InvalidModelRevision)
    } else {
        Ok(())
    }
}

pub fn validate_identity(tenant_id: &str, model_revision: &str) -> (r: Result<(), EmbeddingError>)
    ensures
        r == spec_validate_identity(tenant_id@, model_revision@),
{
    if !valid_opaque(tenant_id) {
        return Err(EmbeddingError::InvalidTenant);
    }
    if !valid_opaque(model_revision) {
        return Err(EmbeddingError::InvalidModelRevision);
    }
    Ok(())
}

/// What normalizing a source vector of `source_len` values decides before it
/// reads a value: the identity, then that there is at least one value and at
/// most `EMBEDDING_SOURCE_DIMENSIONS_MAX`.
pub open spec fn spec_check_source_shape(tenant_id: Seq<char>, model_revision: Seq<char>, source_len: int) -> Result<(), EmbeddingError> {
    if spec_validate_identity(tenant_id, model_revision) is Err {
        spec_validate_identity(tenant_id, model_revision)
    } else if source_len == 0 {
        Err(EmbeddingError::EmptySource)
    } else if source_len > EMBEDDING_SOURCE_DIMENSIONS_MAX {
        Err(EmbeddingError::SourceTooWide)
    } else {
        Ok(())
    }
}

pub fn check_source_shape(tenant_id: &str, model_revision: &str, source_len: usize) -> (r: Result<(), EmbeddingError>)
    ensures
        r == spec_check_source_shape(tenant_id@, model_revision@, source_len as int),
{
    validate_identity(tenant_id, model_revision)?;
    if source_len == 0 {
        return Err(EmbeddingError::EmptySource);
    }
    if source_len > EMBEDDING_SOURCE_DIMENSIONS_MAX {
        return Err(EmbeddingError::SourceTooWide);
    }
    Ok(())
}

/// What validating a stored vector of `stored_len` values decides before it
/// reads a value: the identity, then the exact storage width.
pub open spec fn spec_check_storage_shape(tenant_id: Seq<char>, model_revision: Seq<char>, stored_len: int) -> Result<(), EmbeddingError> {
    if spec_validate_identity(tenant_id, model_revision) is Err {
        spec_validate_identity(tenant_id, model_revision)
    } else if stored_len != EMBEDDING_STORAGE_DIMENSIONS {
        Err(EmbeddingError::InvalidStorageDimensions)
    } else {
        Ok(())
    }
}

pub fn check_storage_shape(tenant_id: &str, model_revision: &str, stored_len: usize) -> (r: Result<(), EmbeddingError>)
    ensures
        r == spec_check_storage_shape(tenant_id@, model_revision@, stored_len as int),
{
    validate_identity(tenant_id, model_revision)?;
    if stored_len != EMBEDDING_STORAGE_DIMENSIONS {
        return Err(EmbeddingError::InvalidStorageDimensions);
    }
    Ok(())
}

/// Two embeddings may be compared only within one tenant and one model revision.
pub open spec fn spec_check_same_space(
    left_tenant: Seq<char>,
    left_model: Seq<char>,
    right_tenant: Seq<char>,
    right_model: Seq<char>,
) -> Result<(), EmbeddingError> {
    if left_tenant != right_tenant {
        Err(EmbeddingError::TenantMismatch)
    } else if left_model != right_model {
        Err(EmbeddingError::ModelRevisionMismatch)
    } else {
        Ok(())
    }
}

pub fn check_same_space(left_tenant: &str, left_model: &str, right_tenant: &str, right_model: &str) -> (r: Result<(), EmbeddingError>)
    ensures
        r == spec_check_same_space(left_tenant@, left_model@, right_tenant@, right_model@),
{
    if !str_eq(left_tenant, right_tenant) {
        return Err(EmbeddingError::TenantMismatch);
    }
    if !str_eq(left_model, right_model) {
        return Err(EmbeddingError::ModelRevisionMismatch);
    }
    Ok(())
}

/// A candidate offered for ranking, by its id and the identity of its embedding.
#[derive(Clone, Copy)]
pub struct CandidateIdentity<'a> {
    pub candidate_id: &'a str,
    pub tenant_id: &'a str,
    pub model_revision: &'a str,
}

/// The first error a candidate list gives, checking candidates in order.
pub open spec fn spec_first_candidate_error(
    query_tenant: Seq<char>,
    query_model: Seq<char>,
    candidates: Seq<CandidateIdentity>,
) -> Result<(), EmbeddingError>
    decreases candidates.len(),
{
    if candidates.len() == 0 {
        Ok(())
    } else {
        let c = candidates[0];
        if !spec_valid_opaque(c.candidate_id@) {
            Err(EmbeddingError::InvalidCandidateId)
        } else if spec_check_same_space(query_tenant, query_model, c.tenant_id@, c.model_revision@) is Err {
            spec_check_same_space(query_tenant, query_model, c.tenant_id@, c.model_revision@)
        } else {
            spec_first_candidate_error(query_tenant, query_model, candidates.drop_first())
        }
    }
}

/// What ranking decides of its candidates before it compares any vectors: at
/// most `SEARCH_CANDIDATES_MAX` of them, and then, in order, each with a
/// well-formed id and an embedding of the query's tenant and model revision.
pub open spec fn spec_check_candidates(
    query_tenant: Seq<char>,
    query_model: Seq<char>,
    candidates: Seq<CandidateIdentity>,
) -> Result<(), EmbeddingError> {
    if candidates.len() > SEARCH_CANDIDATES_MAX {
        Err(EmbeddingError::TooManyCandidates)
    } else {
        spec_first_candidate_error(query_tenant, query_model, candidates)
    }
}

proof fn lemma_first_candidate_error_skip(
    query_tenant: Seq<char>,
    query_model: Seq<char>,
    candidates: Seq<CandidateIdentity>,
    i: int,
)
    requires
        0 <= i < candidates.len(),
    ensures
        ({
            let c = candidates[i];
            spec_first_candidate_error(query_tenant, query_model, candidates.skip(i)) == if !spec_valid_opaque(c.candidate_id@) {
                Err(EmbeddingError::InvalidCandidateId)
            } else if spec_check_same_space(query_tenant, query_model, c.tenant_id@, c.model_revision@) is Err {
                spec_check_same_space(query_tenant, query_model, c.tenant_id@, c.model_revision@)
            } else {
                spec_first_candidate_error(query_tenant, query_model, candidates.skip(i + 1))
            }
        }),
{
    assert(candidates.skip(i)[0] == candidates[i]);
    assert(candidates.skip(i).drop_first() == candidates.skip(i + 1));
}

pub fn check_candidates(query_tenant: &str, query_model: &str, candidates: &[CandidateIdentity<'_>]) -> (r: Result<(), EmbeddingError>)
    ensures
        r == spec_check_candidates(query_tenant@, query_model@, candidates@),
{
    if candidates.len() > SEARCH_CANDIDATES_MAX {
        return Err(EmbeddingError::TooManyCandidates);
    }
    let mut i: usize = 0;
    assert(candidates@.skip(0) == candidates@);
    while i < candidates.len()
        invariant
            i <= candidates@.len() <= SEARCH_CANDIDATES_MAX,
            spec_first_candidate_error(query_tenant@, query_model@, candidates@)
                == spec_first_candidate_error(query_tenant@, query_model@, candidates@.skip(i as int)),
        decreases candidates@.len() - i,
    {
        let c = candidates[i];
        proof {
            lemma_first_candidate_error_skip(query_tenant@, query_model@, candidates@, i as int);
        }
        if !valid_opaque(c.candidate_id) {
            return Err(EmbeddingError::InvalidCandidateId);
        }
        check_same_space(query_tenant, query_model, c.tenant_id, c.model_revision)?;
        i = i + 1;
    }
    Ok(())
}

// ---------------------------------------------------------------------------
// Laws of the embedding, candidate and cohort checks
// ---------------------------------------------------------------------------

/// An identity passes exactly when both the tenant and the model revision
/// are opaque ids; an invalid tenant is reported before the model revision.
pub proof fn lemma_identity_check(tenant_id: Seq<char>, model_revision: Seq<char>)
    ensures
        (spec_validate_identity(tenant_id, model_revision) == Ok::<(), EmbeddingError>(()))
            <==> (spec_valid_opaque(tenant_id) && spec_valid_opaque(model_revision)),
        (spec_validate_identity(tenant_id, model_revision) == Err::<(), EmbeddingError>(
            EmbeddingError::InvalidTenant,
        )) <==> !spec_valid_opaque(tenant_id),
        (spec_validate_identity(tenant_id, model_revision) == Err::<(), EmbeddingError>(
            EmbeddingError::InvalidModelRevision,
        )) <==> (spec_valid_opaque(tenant_id) && !spec_valid_opaque(model_revision)),
{
}

/// A source vector passes its shape check exactly when its identity is
/// valid and it holds between 1 and 4096 values; with a valid identity an
/// empty source is `EmptySource` and a longer one `SourceTooWide`.
pub proof fn lemma_source_shape_bounds(tenant_id: Seq<char>, model_revision: Seq<char>, source_len: int)
    requires
        source_len >= 0,
    ensures
        (spec_check_source_shape(tenant_id, model_revision, source_len) == Ok::<(), EmbeddingError>(()))
            <==> (spec_valid_opaque(tenant_id) && spec_valid_opaque(model_revision) && 1 <= source_len
            <= 4096),
        spec_valid_opaque(tenant_id) && spec_valid_opaque(model_revision) ==> {
            &&& source_len == 0 ==> spec_check_source_shape(tenant_id, model_revision, source_len)
                == Err::<(), EmbeddingError>(EmbeddingError::EmptySource)
            &&& source_len > 4096 ==> spec_check_source_shape(tenant_id, model_revision, source_len)
                == Err::<(), EmbeddingError>(EmbeddingError::SourceTooWide)
        },
        !(spec_valid_opaque(tenant_id) && spec_valid_opaque(model_revision)) ==> spec_check_source_shape(
            tenant_id,
            model_revision,
            source_len,
        ) == spec_validate_identity(tenant_id, model_revision),
{
}

/// A stored vector passes its shape check exactly when its identity is valid
/// and it holds exactly 4100 values.
pub proof fn lemma_storage_shape_width(tenant_id: Seq<char>, model_revision: Seq<char>, stored_len: int)
    ensures
        (spec_check_storage_shape(tenant_id, model_revision, stored_len) == Ok::<(), EmbeddingError>(()))
            <==> (spec_valid_opaque(tenant_id) && spec_valid_opaque(model_revision) && stored_len
            == 4100),
        spec_valid_opaque(tenant_id) && spec_valid_opaque(model_revision) && stored_len != 4100
            ==> spec_check_storage_shape(tenant_id, model_revision, stored_len) == Err::<
            (),
            EmbeddingError,
        >(EmbeddingError::InvalidStorageDimensions),
        !(spec_valid_opaque(tenant_id) && spec_valid_opaque(model_revision)) ==> spec_check_storage_shape(
            tenant_id,
            model_revision,
            stored_len,
        ) == spec_validate_identity(tenant_id, model_revision),
{
}

/// Two embeddings are comparable exactly when they have the same tenant and
/// the same model revision; a tenant difference is reported first.
pub proof fn lemma_same_space(
    left_tenant: Seq<char>,
    left_model: Seq<char>,
    right_tenant: Seq<char>,
    right_model: Seq<char>,
)
    ensures
        (spec_check_same_space(left_tenant, left_model, right_tenant, right_model) == Ok::<
            (),
            EmbeddingError,
        >(())) <==> (left_tenant == right_tenant && left_model == right_model),
        (spec_check_same_space(left_tenant, left_model, right_tenant, right_model) == Err::<
            (),
            EmbeddingError,
        >(EmbeddingError::TenantMismatch)) <==> left_tenant != right_tenant,
        (spec_check_same_space(left_tenant, left_model, right_tenant, right_model) == Err::<
            (),
            EmbeddingError,
        >(EmbeddingError::ModelRevisionMismatch)) <==> (left_tenant == right_tenant && left_model
            != right_model),
{
}

/// A candidate that ranking accepts: an opaque id, and an embedding of the
/// query's tenant and model revision.
pub open spec fn candidate_acceptable(query_tenant: Seq<char>, query_model: Seq<char>, c: CandidateIdentity) -> bool {
    spec_valid_opaque(c.candidate_id@) && c.tenant_id@ == query_tenant && c.model_revision@ == query_model
}

proof fn lemma_first_candidate_error_ok(
    query_tenant: Seq<char>,
    query_model: Seq<char>,
    candidates: Seq<CandidateIdentity>,
)
    ensures
        (spec_first_candidate_error(query_tenant, query_model, candidates) == Ok::<(), EmbeddingError>(()))
            <==> forall|i: int|
            0 <= i < candidates.len() ==> candidate_acceptable(query_tenant, query_model, #[trigger] candidates[i]),
    decreases candidates.len(),
{
    if candidates.len() > 0 {
        let rest = candidates.drop_first();
        lemma_first_candidate_error_ok(query_tenant, query_model, rest);
        if forall|i: int|
            0 <= i < rest.len() ==> candidate_acceptable(query_tenant, query_model, #[trigger] rest[i]) {
            if candidate_acceptable(query_tenant, query_model, candidates[0]) {
                assert forall|i: int| 0 <= i < candidates.len() implies candidate_acceptable(
                    query_tenant,
                    query_model,
                    #[trigger] candidates[i],
                ) by {
                    if i > 0 {
                        assert(candidates[i] == rest[i - 1]);
                    }
                }
            }
        } else {
            let i = choose|i: int|
                0 <= i < rest.len() && !candidate_acceptable(query_tenant, query_model, #[trigger] rest[i]);
            assert(candidates[i + 1] == rest[i]);
        }
    }
}

/// The candidate check passes exactly when there are at most 1000 candidates
/// and every one of them is acceptable; more than 1000 is `TooManyCandidates`.
pub proof fn lemma_candidates_accepted(
    query_tenant: Seq<char>,
    query_model: Seq<char>,
    candidates: Seq<CandidateIdentity>,
)
    ensures
        (spec_check_candidates(query_tenant, query_model, candidates) == Ok::<(), EmbeddingError>(()))
            <==> (candidates.len() <= 1000 && forall|i: int|
            0 <= i < candidates.len() ==> candidate_acceptable(query_tenant, query_model, #[trigger] candidates[i])),
        (spec_check_candidates(query_tenant, query_model, candidates) == Err::<(), EmbeddingError>(
            EmbeddingError::TooManyCandidates,
        )) <==> candidates.len() > 1000,
{
    lemma_first_candidate_error_ok(query_tenant, query_model, candidates);
    lemma_first_candidate_error_never_too_many(query_tenant, query_model, candidates);
}

proof fn lemma_first_candidate_error_at(
    query_tenant: Seq<char>,
    query_model: Seq<char>,
    candidates: Seq<CandidateIdentity>,
    k: int,
)
    requires
        0 <= k < candidates.len(),
        forall|i: int| 0 <= i < k ==> candidate_acceptable(query_tenant, query_model, #[trigger] candidates[i]),
        !candidate_acceptable(query_tenant, query_model, candidates[k]),
    ensures
        spec_first_candidate_error(query_tenant, query_model, candidates) == if !spec_valid_opaque(
            candidates[k].candidate_id@,
        ) {
            Err::<(), EmbeddingError>(EmbeddingError::InvalidCandidateId)
        } else if candidates[k].tenant_id@ != query_tenant {
            Err(EmbeddingError::TenantMismatch)
        } else {
            Err(EmbeddingError::ModelRevisionMismatch)
        },
    decreases k,
{
    if k > 0 {
        let rest = candidates.drop_first();
        assert(candidate_acceptable(query_tenant, query_model, candidates[0]));
        assert forall|i: int| 0 <= i < k - 1 implies candidate_acceptable(
            query_tenant,
            query_model,
            #[trigger] rest[i],
        ) by {
            assert(rest[i] == candidates[i + 1]);
        }
        assert(rest[k - 1] == candidates[k]);
        lemma_first_candidate_error_at(query_tenant, query_model, rest, k - 1);
    }
}

/// Candidates are checked in order: when the first unacceptable candidate
/// (among at most 1000) is at position `k`, the check reports that one, as
/// `InvalidCandidateId` for an ill-formed id, else `TenantMismatch` for another
/// tenant, else `ModelRevisionMismatch`.
pub proof fn lemma_candidates_first_failure(
    query_tenant: Seq<char>,
    query_model: Seq<char>,
    candidates: Seq<CandidateIdentity>,
    k: int,
)
    requires
        candidates.len() <= 1000,
        0 <= k < candidates.len(),
        forall|i: int| 0 <= i < k ==> candidate_acceptable(query_tenant, query_model, #[trigger] candidates[i]),
        !candidate_acceptable(query_tenant, query_model, candidates[k]),
    ensures
        spec_check_candidates(query_tenant, query_model, candidates) == if !spec_valid_opaque(
            candidates[k].candidate_id@,
        ) {
            Err::<(), EmbeddingError>(EmbeddingError::InvalidCandidateId)
        } else if candidates[k].tenant_id@ != query_tenant {
            Err(EmbeddingError::TenantMismatch)
        } else {
            Err(EmbeddingError::ModelRevisionMismatch)
        },
{
    lemma_first_candidate_error_at(query_tenant, query_model, candidates, k);
}

proof fn lemma_first_candidate_error_never_too_many(
    query_tenant: Seq<char>,
    query_model: Seq<char>,
    candidates: Seq<CandidateIdentity>,
)
    ensures
        spec_first_candidate_error(query_tenant, query_model, candidates) != Err::<(), EmbeddingError>(
            EmbeddingError::TooManyCandidates,
        ),
    decreases candidates.len(),
{
    if candidates.len() > 0 {
        lemma_first_candidate_error_never_too_many(query_tenant, query_model, candidates.drop_first());
    }
}

/// A regression cohort passes exactly when it holds 10 to 10,000
/// observations; fewer is `TooFewObservations`, more `TooManyObservations`.
pub proof fn lemma_cohort_size_bounds(count: int)
    ensures
        (spec_check_cohort_size(count) == Ok::<(), RegressionError>(())) <==> (10 <= count <= 10_000),
        (spec_check_cohort_size(count) == Err::<(), RegressionError>(RegressionError::TooFewObservations))
            <==> count < 10,
        (spec_check_cohort_size(count) == Err::<(), RegressionError>(RegressionError::TooManyObservations))
            <==> count > 10_000,
{
}

// ---------------------------------------------------------------------------
// Regression cohorts and audit metadata
// ---------------------------------------------------------------------------

#[derive(Clone, Copy, Debug, Eq, PartialEq, Structural)]
pub enum RegressionError {
    TooFewObservations,
    TooManyObservations,
    NonFiniteObservation,
    ZeroPredictorVariance,
    ZeroResponseVariance,
    NonFiniteResult,
}

/// A regression takes between `DISCOVERY_OBSERVATIONS_MIN` and
/// `DISCOVERY_OBSERVATIONS_MAX` observations.
pub open spec fn spec_check_cohort_size(count: int) -> Result<(), RegressionError> {
    if count < DISCOVERY_OBSERVATIONS_MIN {
        Err(RegressionError::TooFewObservations)
    } else if count > DISCOVERY_OBSERVATIONS_MAX {
        Err(RegressionError::TooManyObservations)
    } else {
        Ok(())
    }
}

pub fn check_cohort_size(count: usize) -> (r: Result<(), RegressionError>)
    ensures
        r == spec_check_cohort_size(count as int),
{
    if count < DISCOVERY_OBSERVATIONS_MIN {
        return Err(RegressionError::TooFewObservations);
    }
    if count > DISCOVERY_OBSERVATIONS_MAX {
        return Err(RegressionError::TooManyObservations);
    }
    Ok(())
}

#[derive(Clone, Copy, Debug, Eq, PartialEq, Structural)]
pub enum AuditStatus {
    Allowed,
    Denied,
    Completed,
    Failed,
}

/// Content-free audit metadata safe for telemetry exporters.
#[derive(Clone, Copy, Debug, Eq, PartialEq, Structural)]
pub struct IntelligenceAuditEvent {
    pub surface: IntelligenceSurface,
    pub status: AuditStatus,
    pub candidate_count: u16,
    pub result_count: u8,
}

} // verus!
