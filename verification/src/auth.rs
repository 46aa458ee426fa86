//! API key authorization: tenant-bound keys with three permission levels.
//!
//! - With no key configured the engine is open (single-machine default).
//! - With keys configured, gRPC requests carry an `x-api-key` metadata entry
//!   and HTTP requests an `x-api-key` header or `Authorization: Bearer <key>`.
//! - Every key is bound to one tenant and one level (read < write < admin);
//!   the level decides which calls it may make, and a request for another
//!   tenant is refused (an admin key may use the wildcard tenant `"*"`).
//!
//! The key table is JSON: an array, or `{"keys": [...]}`, of entries such as
//! `{"key": "nyl_...", "tenant": "acme", "scope": "write"}` (scope defaults
//! to read).

use vstd::prelude::*;

use crate::json::{
    get_member, json_of, lemma_array_view, lemma_object_view, member, members_view, parse_json, Json,
    JsonModel,
};
use crate::text::{all_ascii, ascii_chars, str_equal, string_from_ascii};

verus! {

/// Permission level: read < write < admin.
#[derive(Debug, Clone, Copy, PartialEq, Eq, Structural, PartialOrd, Ord, Hash)]
pub enum Scope {
    /// Read only: Resonate, Search, GetNode.
    Read,
    /// Read and write: Read plus Weave and WeaveSession.
    Write,
    /// Administration: Write plus management; may use the tenant `"*"`.
    Admin,
}

/// The position of a level in the order read < write < admin.
pub open spec fn scope_rank(s: Scope) -> nat {
    match s {
        Scope::Read => 0,
        Scope::Write => 1,
        Scope::Admin => 2,
    }
}

/// The name of a level.
pub open spec fn scope_name(s: Scope) -> Seq<char> {
    match s {
        Scope::Read => "read"@,
        Scope::Write => "write"@,
        Scope::Admin => "admin"@,
    }
}

/// The level with the given name.
pub open spec fn scope_named(t: Seq<char>) -> Option<Scope> {
    if t == "read"@ {
        Some(Scope::Read)
    } else if t == "write"@ {
        Some(Scope::Write)
    } else if t == "admin"@ {
        Some(Scope::Admin)
    } else {
        None
    }
}

impl Scope {
    /// Whether this level covers the needed one.
    pub fn allows(self, needed: Scope) -> (r: bool)
        ensures
            r == (scope_rank(self) >= scope_rank(needed)),
    {
        match (self, needed) {
            (Scope::Admin, _) => true,
            (Scope::Write, Scope::Admin) => false,
            (Scope::Write, _) => true,
            (Scope::Read, Scope::Read) => true,
            (Scope::Read, _) => false,
        }
    }

    /// The level named `s`.
    pub fn parse(s: &str) -> (r: Option<Scope>)
        ensures
            r == scope_named(s@),
    {
        if str_equal(s, "read") {
            Some(Scope::Read)
        } else if str_equal(s, "write") {
            Some(Scope::Write)
        } else if str_equal(s, "admin") {
            Some(Scope::Admin)
        } else {
            None
        }
    }

    /// The name of the level.
    pub fn as_str(self) -> (r: &'static str)
        ensures
            r@ == scope_name(self),
    {
        match self {
            Scope::Read => "read",
            Scope::Write => "write",
            Scope::Admin => "admin",
        }
    }
}

/// What a key grants: its tenant and level.
#[derive(Debug, Clone, PartialEq)]
pub struct KeyGrant {
    pub tenant: String,
    pub scope: Scope,
}

/// Whether a key tenant covers a tenant: the wildcard, or the same name.
pub open spec fn tenant_covers(key_tenant: Seq<char>, tenant: Seq<char>) -> bool {
    key_tenant == "*"@ || key_tenant == tenant
}

impl KeyGrant {
    /// Whether the grant covers `tenant` (wildcard `"*"` or exact match).
    pub fn covers_tenant(&self, tenant: &str) -> (r: bool)
        ensures
            r == tenant_covers(self.tenant@, tenant@),
    {
        str_equal(self.tenant.as_str(), "*") || str_equal(self.tenant.as_str(), tenant)
    }

    /// A copy of the grant.
    pub fn duplicate(&self) -> (r: KeyGrant)
        ensures
            r.tenant@ == self.tenant@,
            r.scope == self.scope,
    {
        KeyGrant { tenant: self.tenant.clone(), scope: self.scope }
    }
}

// ---------------------------------------------------------------------------
// The key table.
// ---------------------------------------------------------------------------

/// Why a key table was refused. Entry numbers count from one.
#[derive(Debug, Clone, PartialEq)]
pub enum KeyTableError {
    /// The text is not JSON (serde_json's message).
    Json(String),
    /// Neither an array nor an object with a `keys` array.
    NotAList,
    /// The entry is not `{key, tenant, scope?}` (or `[key, tenant, scope]`).
    BadEntry(usize),
    /// The entry's key or tenant is empty.
    EmptyField(usize),
    /// The entry's scope is not read, write or admin.
    BadScope(usize),
    /// The entry uses the wildcard tenant without the admin level.
    WildcardNotAdmin(usize),
    /// The table holds no entry.
    Empty,
}

/// The fields `(key, tenant, scope)` of an entry, as serde reads a struct of
/// two strings and an optional string from a JSON object (absent or null
/// scope: none; other members ignored) or from a JSON array of exactly
/// three elements.
pub open spec fn entry_fields(item: JsonModel) -> Option<(Seq<char>, Seq<char>, Option<Seq<char>>)> {
    match item {
        JsonModel::Object(fs) => match (member(fs, "key"@), member(fs, "tenant"@)) {
            (Some(JsonModel::Str(k)), Some(JsonModel::Str(t))) => match member(fs, "scope"@) {
                None => Some((k, t, None)),
                Some(JsonModel::Null) => Some((k, t, None)),
                Some(JsonModel::Str(s)) => Some((k, t, Some(s))),
                _ => None,
            },
            _ => None,
        },
        JsonModel::Array(xs) => if xs.len() == 3 {
            match (xs[0], xs[1], xs[2]) {
                (JsonModel::Str(k), JsonModel::Str(t), JsonModel::Null) => Some((k, t, None)),
                (JsonModel::Str(k), JsonModel::Str(t), JsonModel::Str(s)) => Some((k, t, Some(s))),
                _ => None,
            }
        } else {
            None
        },
        _ => None,
    }
}

/// A tenant and a level, as the key table holds them.
pub type GrantModel = (Seq<char>, Scope);

/// The grant of entry number `num`, or why it is refused.
pub open spec fn entry_grant(item: JsonModel, num: nat) -> Result<(Seq<char>, GrantModel), KeyTableError> {
    match entry_fields(item) {
        None => Err(KeyTableError::BadEntry(num as usize)),
        Some((k, t, s)) => if k.len() == 0 || t.len() == 0 {
            Err(KeyTableError::EmptyField(num as usize))
        } else {
            let sc = match s {
                None => Some(Scope::Read),
                Some(x) => scope_named(x),
            };
            match sc {
                None => Err(KeyTableError::BadScope(num as usize)),
                Some(level) => if t == "*"@ && level != Scope::Admin {
                    Err(KeyTableError::WildcardNotAdmin(num as usize))
                } else {
                    Ok((k, (t, level)))
                },
            }
        },
    }
}

/// The table of the first `n` entries; a later entry for a key replaces an
/// earlier one.
pub open spec fn table_prefix(items: Seq<JsonModel>, n: nat) -> Result<Map<Seq<char>, GrantModel>, KeyTableError>
    decreases n,
{
    if n == 0 {
        Ok(Map::empty())
    } else {
        match table_prefix(items, (n - 1) as nat) {
            Err(e) => Err(e),
            Ok(m) => match entry_grant(items[n - 1], n) {
                Err(e) => Err(e),
                Ok((k, g)) => Ok(m.insert(k, g)),
            },
        }
    }
}

/// The entries of a table document.
pub open spec fn table_items(doc: JsonModel) -> Option<Seq<JsonModel>> {
    match doc {
        JsonModel::Array(xs) => Some(xs),
        JsonModel::Object(fs) => match member(fs, "keys"@) {
            Some(JsonModel::Array(xs)) => Some(xs),
            _ => None,
        },
        _ => None,
    }
}

/// The key table that a JSON document describes, or why it is refused.
pub open spec fn key_table(doc: JsonModel) -> Result<Map<Seq<char>, GrantModel>, KeyTableError> {
    match table_items(doc) {
        None => Err(KeyTableError::NotAList),
        Some(items) => match table_prefix(items, items.len()) {
            Err(e) => Err(e),
            Ok(m) => if items.len() == 0 {
                Err(KeyTableError::Empty)
            } else {
                Ok(m)
            },
        },
    }
}

/// The table of a list of `(key, grant)` pairs, a later pair replacing an
/// earlier one.
pub open spec fn pairs_table(s: Seq<(String, KeyGrant)>) -> Map<Seq<char>, GrantModel>
    decreases s.len(),
{
    if s.len() == 0 {
        Map::empty()
    } else {
        pairs_table(s.drop_last()).insert(s.last().0@, (s.last().1.tenant@, s.last().1.scope))
    }
}

pub open spec fn keys_unique(s: Seq<(String, KeyGrant)>) -> bool {
    forall|i: int, j: int| 0 <= i < j < s.len() ==> s[i].0@ != s[j].0@
}

proof fn lemma_pairs_table(s: Seq<(String, KeyGrant)>)
    requires
        keys_unique(s),
    ensures
        pairs_table(s).dom().finite(),
        pairs_table(s).dom().len() == s.len(),
        forall|k: Seq<char>| #[trigger] pairs_table(s).contains_key(k) <==> exists|i: int| 0 <= i < s.len() && s[i].0@ == k,
        forall|i: int| 0 <= i < s.len() ==> #[trigger] pairs_table(s)[s[i].0@] == (s[i].1.tenant@, s[i].1.scope),
    decreases s.len(),
{
    if s.len() > 0 {
        let init = s.drop_last();
        assert(keys_unique(init)) by {
            assert forall|i: int, j: int| 0 <= i < j < init.len() implies init[i].0@ != init[j].0@ by {
                assert(init[i] == s[i] && init[j] == s[j]);
            }
        }
        lemma_pairs_table(init);
        let k = s.last().0@;
        assert(!pairs_table(init).contains_key(k)) by {
            if pairs_table(init).contains_key(k) {
                let i = choose|i: int| 0 <= i < init.len() && init[i].0@ == k;
                assert(s[i].0@ == s[s.len() - 1].0@);
            }
        }
        assert forall|k2: Seq<char>| #[trigger] pairs_table(s).contains_key(k2) <==> exists|i: int| 0 <= i < s.len() && s[i].0@ == k2 by {
            if pairs_table(init).contains_key(k2) {
                let i = choose|i: int| 0 <= i < init.len() && init[i].0@ == k2;
                assert(s[i].0@ == k2);
            }
            if exists|i: int| 0 <= i < s.len() && s[i].0@ == k2 {
                let i = choose|i: int| 0 <= i < s.len() && s[i].0@ == k2;
                if i < s.len() - 1 {
                    assert(init[i].0@ == k2);
                }
            }
        }
        assert forall|i: int| 0 <= i < s.len() implies #[trigger] pairs_table(s)[s[i].0@] == (s[i].1.tenant@, s[i].1.scope) by {
            if i < s.len() - 1 {
                assert(init[i] == s[i]);
                assert(s[i].0@ != s[s.len() - 1].0@);
                assert(pairs_table(init)[init[i].0@] == (init[i].1.tenant@, init[i].1.scope));
            }
        }
    }
}

/// Replacing the grant of a listed key is an insert into the table.
proof fn lemma_pairs_table_update(s: Seq<(String, KeyGrant)>, j: int, x: (String, KeyGrant))
    requires
        keys_unique(s),
        0 <= j < s.len(),
        s[j].0@ == x.0@,
    ensures
        keys_unique(s.update(j, x)),
        pairs_table(s.update(j, x)) == pairs_table(s).insert(x.0@, (x.1.tenant@, x.1.scope)),
{
    let s2 = s.update(j, x);
    assert(keys_unique(s2)) by {
        assert forall|a: int, b: int| 0 <= a < b < s2.len() implies s2[a].0@ != s2[b].0@ by {
            assert(s2[a].0@ == s[a].0@ && s2[b].0@ == s[b].0@);
        }
    }
    lemma_pairs_table(s);
    lemma_pairs_table(s2);
    let m2 = pairs_table(s).insert(x.0@, (x.1.tenant@, x.1.scope));
    assert forall|k: Seq<char>| #[trigger] pairs_table(s2).contains_key(k) <==> m2.contains_key(k) by {
        if exists|i: int| 0 <= i < s.len() && s[i].0@ == k {
            let i = choose|i: int| 0 <= i < s.len() && s[i].0@ == k;
            assert(s2[i].0@ == k);
        }
        if exists|i: int| 0 <= i < s2.len() && s2[i].0@ == k {
            let i = choose|i: int| 0 <= i < s2.len() && s2[i].0@ == k;
            assert(s[i].0@ == k);
        }
    }
    assert forall|k: Seq<char>| pairs_table(s2).contains_key(k) implies #[trigger] pairs_table(s2)[k] == m2[k] by {
        let i = choose|i: int| 0 <= i < s2.len() && s2[i].0@ == k;
        assert(pairs_table(s2)[s2[i].0@] == (s2[i].1.tenant@, s2[i].1.scope));
        if i != j {
            assert(s2[i] == s[i]);
            assert(pairs_table(s)[s[i].0@] == (s[i].1.tenant@, s[i].1.scope));
        }
    }
    assert(pairs_table(s2) =~= m2);
}

/// The key table: loaded at start, read only afterwards. It is held as a
/// list of (key, grant) pairs in which no key occurs twice, viewed as a map
/// from key to grant, so that every lookup is proved against that map.
#[derive(Debug)]
pub struct ApiKeys {
    grants: Vec<(String, KeyGrant)>,
}

impl ApiKeys {
    /// The table as a map from key to grant.
    pub closed spec fn table(&self) -> Map<Seq<char>, GrantModel> {
        pairs_table(self.grants@)
    }

    pub closed spec fn wf(&self) -> bool {
        keys_unique(self.grants@)
    }

    /// Puts a grant under a key, replacing the grant the key had.
    fn put(&mut self, key: String, grant: KeyGrant)
        requires
            old(self).wf(),
        ensures
            final(self).wf(),
            final(self).table() == old(self).table().insert(key@, (grant.tenant@, grant.scope)),
    {
        let ghost s0 = self.grants@;
        let mut i: usize = 0;
        while i < self.grants.len()
            invariant
                self.grants@ == s0,
                s0 == old(self).grants@,
                keys_unique(s0),
                i <= s0.len(),
                forall|j: int| 0 <= j < i ==> s0[j].0@ != key@,
            decreases s0.len() - i,
        {
            if str_equal(self.grants[i].0.as_str(), key.as_str()) {
                let ghost x = (key, grant);
                proof {
                    lemma_pairs_table_update(s0, i as int, x);
                }
                self.grants.set(i, (key, grant));
                assert(self.grants@ == s0.update(i as int, x));
                return;
            }
            i = i + 1;
        }
        let ghost x = (key, grant);
        self.grants.push((key, grant));
        proof {
            let s1 = s0.push(x);
            assert(self.grants@ == s1);
            assert(s1.drop_last() =~= s0);
            assert forall|a: int, b: int| 0 <= a < b < s1.len() implies s1[a].0@ != s1[b].0@ by {
                if b == s1.len() - 1 {
                    assert(s1[a] == s0[a]);
                } else {
                    assert(s1[a] == s0[a] && s1[b] == s0[b]);
                }
            }
        }
    }

    /// Builds the key table that a JSON document describes.
    pub fn from_json(doc: &Json) -> (r: Result<ApiKeys, KeyTableError>)
        ensures
            match key_table(doc@) {
                Ok(m) => r matches Ok(k) && k.wf() && k.table() == m,
                Err(e) => r matches Err(e2) && e2 == e,
            },
    {
        let items: &Vec<Json> = match doc {
            Json::Array(xs) => {
                proof {
                    lemma_array_view(*xs);
                }
                xs
            },
            Json::Object(fs) => {
                proof {
                    lemma_object_view(*fs);
                }
                match get_member(fs, "keys") {
                    Some(Json::Array(xs)) => {
                        proof {
                            lemma_array_view(*xs);
                        }
                        xs
                    },
                    _ => {
                        return Err(KeyTableError::NotAList);
                    },
                }
            },
            _ => {
                return Err(KeyTableError::NotAList);
            },
        };
        let ghost iv = crate::json::items_view(items@);
        assert(table_items(doc@) == Some(iv));
        let mut keys = ApiKeys { grants: Vec::new() };
        assert(keys.table() =~= Map::<Seq<char>, GrantModel>::empty());
        let mut i: usize = 0;
        while i < items.len()
            invariant
                i <= items@.len(),
                iv == crate::json::items_view(items@),
                table_items(doc@) == Some(iv),
                keys.wf(),
                table_prefix(iv, i as nat) == Ok::<Map<Seq<char>, GrantModel>, KeyTableError>(keys.table()),
            decreases items@.len() - i,
        {
            let num = i + 1;
            let item = &items[i];
            assert(iv[i as int] == item@);
            match entry_grant_exec(item, num) {
                Ok((k, g)) => {
                    keys.put(k, g);
                },
                Err(e) => {
                    proof {
                        lemma_table_prefix_err(iv, (i + 1) as nat, iv.len());
                    }
                    return Err(e);
                },
            }
            i = i + 1;
        }
        if items.len() == 0 {
            return Err(KeyTableError::Empty);
        }
        Ok(keys)
    }

    /// Parses a JSON key table (an array or `{"keys": [...]}`).
    pub fn parse(json: &str) -> (r: Result<ApiKeys, KeyTableError>)
        ensures
            match json_of(json@) {
                None => r matches Err(KeyTableError::Json(_)),
                Some(doc) => match key_table(doc) {
                    Ok(m) => r matches Ok(k) && k.wf() && k.table() == m,
                    Err(e) => r matches Err(e2) && e2 == e,
                },
            },
    {
        match parse_json(json) {
            Ok(doc) => ApiKeys::from_json(&doc),
            Err(msg) => Err(KeyTableError::Json(msg)),
        }
    }

    /// The grant of a key; `None` for an unknown key.
    pub fn authenticate(&self, key: &str) -> (r: Option<KeyGrant>)
        requires
            self.wf(),
        ensures
            r is Some <==> self.table().contains_key(key@),
            r matches Some(g) ==> self.table()[key@] == (g.tenant@, g.scope),
    {
        let mut i: usize = 0;
        while i < self.grants.len()
            invariant
                self.wf(),
                i <= self.grants@.len(),
                forall|j: int| 0 <= j < i ==> self.grants@[j].0@ != key@,
            decreases self.grants@.len() - i,
        {
            if str_equal(self.grants[i].0.as_str(), key) {
                proof {
                    lemma_pairs_table(self.grants@);
                }
                assert(self.table()[self.grants@[i as int].0@] == (self.grants@[i as int].1.tenant@, self.grants@[i as int].1.scope));
                return Some(self.grants[i].1.duplicate());
            }
            i = i + 1;
        }
        proof {
            lemma_pairs_table(self.grants@);
        }
        None
    }

    /// Number of keys.
    pub fn len(&self) -> (r: usize)
        requires
            self.wf(),
        ensures
            r == self.table().dom().len(),
    {
        proof {
            lemma_pairs_table(self.grants@);
        }
        self.grants.len()
    }
}

proof fn lemma_table_prefix_err(items: Seq<JsonModel>, k: nat, k2: nat)
    requires
        k <= k2,
        table_prefix(items, k) is Err,
    ensures
        table_prefix(items, k2) == table_prefix(items, k),
    decreases k2,
{
    if k2 > k {
        lemma_table_prefix_err(items, k, (k2 - 1) as nat);
    }
}

/// The string of a JSON string value.
fn json_str(j: Option<&Json>) -> (r: Option<String>)
    ensures
        match j {
            Some(x) => match x@ {
                JsonModel::Str(s) => r matches Some(v) && v@ == s,
                _ => r is None,
            },
            None => r is None,
        },
{
    match j {
        Some(Json::Str(s)) => Some(s.clone()),
        _ => None,
    }
}

/// The fields of an entry, as `entry_fields` reads them.
fn entry_fields_exec(item: &Json) -> (r: Option<(String, String, Option<String>)>)
    ensures
        match entry_fields(item@) {
            None => r is None,
            Some((k, t, s)) => r matches Some((k2, t2, s2)) && k2@ == k && t2@ == t && match s {
                None => s2 is None,
                Some(x) => s2 matches Some(y) && y@ == x,
            },
        },
{
    match item {
        Json::Object(fs) => {
            proof {
                lemma_object_view(*fs);
            }
            let k = json_str(get_member(fs, "key"));
            let t = json_str(get_member(fs, "tenant"));
            match (k, t) {
                (Some(k), Some(t)) => match get_member(fs, "scope") {
                    None => Some((k, t, None)),
                    Some(Json::Null) => Some((k, t, None)),
                    Some(Json::Str(s)) => Some((k, t, Some(s.clone()))),
                    _ => None,
                },
                _ => None,
            }
        },
        Json::Array(xs) => {
            proof {
                lemma_array_view(*xs);
            }
            if xs.len() == 3 {
                match (&xs[0], &xs[1], &xs[2]) {
                    (Json::Str(k), Json::Str(t), Json::Null) => Some((k.clone(), t.clone(), None)),
                    (Json::Str(k), Json::Str(t), Json::Str(s)) => Some((k.clone(), t.clone(), Some(s.clone()))),
                    _ => None,
                }
            } else {
                None
            }
        },
        _ => None,
    }
}

/// The grant of entry number `num`, or why it is refused.
fn entry_grant_exec(item: &Json, num: usize) -> (r: Result<(String, KeyGrant), KeyTableError>)
    ensures
        match entry_grant(item@, num as nat) {
            Ok((k, g)) => r matches Ok((k2, g2)) && k2@ == k && (g2.tenant@, g2.scope) == g,
            Err(e) => r matches Err(e2) && e2 == e,
        },
{
    let (k, t, s) = match entry_fields_exec(item) {
        Some(f) => f,
        None => {
            return Err(KeyTableError::BadEntry(num));
        },
    };
    if k.as_str().is_empty() || t.as_str().is_empty() {
        return Err(KeyTableError::EmptyField(num));
    }
    let level = match s {
        None => Scope::Read,
        Some(x) => match Scope::parse(x.as_str()) {
            Some(l) => l,
            None => {
                return Err(KeyTableError::BadScope(num));
            },
        },
    };
    if str_equal(t.as_str(), "*") && level != Scope::Admin {
        return Err(KeyTableError::WildcardNotAdmin(num));
    }
    Ok((k, KeyGrant { tenant: t, scope: level }))
}


/// Entry `i` (counting from zero) of a table is accepted and is for key `k`.
pub open spec fn entry_for(items: Seq<JsonModel>, i: int, k: Seq<char>) -> bool {
    entry_grant(items[i], (i + 1) as nat) matches Ok((k2, _)) && k2 == k
}

/// The grant of an accepted entry `i`.
pub open spec fn entry_grant_at(items: Seq<JsonModel>, i: int) -> GrantModel {
    match entry_grant(items[i], (i + 1) as nat) {
        Ok((_, g)) => g,
        Err(_) => ("*"@, Scope::Read),
    }
}

proof fn lemma_prefix_last_wins(items: Seq<JsonModel>, n: nat, k: Seq<char>)
    requires
        n <= items.len(),
        table_prefix(items, n) is Ok,
    ensures
        (table_prefix(items, n)->Ok_0).contains_key(k) <==> exists|i: int| 0 <= i < n && #[trigger] entry_for(items, i, k),
        forall|i: int|
            0 <= i < n && #[trigger] entry_for(items, i, k) && (forall|j: int| i < j < n ==> !entry_for(items, j, k))
                ==> (table_prefix(items, n)->Ok_0)[k] == entry_grant_at(items, i),
    decreases n,
{
    if n > 0 {
        let p = (n - 1) as nat;
        lemma_prefix_last_wins(items, p, k);
        let m = table_prefix(items, p)->Ok_0;
        let last = (n - 1) as int;
        let m2 = table_prefix(items, n)->Ok_0;
        assert(entry_grant(items[last], n) is Ok);
        if entry_for(items, last, k) {
            assert(m2 == m.insert(k, entry_grant_at(items, last)));
            assert forall|i: int|
                0 <= i < n && #[trigger] entry_for(items, i, k) && (forall|j: int| i < j < n ==> !entry_for(items, j, k))
                    implies m2[k] == entry_grant_at(items, i) by {
                if i < last {
                    assert(!entry_for(items, last, k));
                }
            }
        } else {
            assert forall|i: int|
                0 <= i < n && #[trigger] entry_for(items, i, k) && (forall|j: int| i < j < n ==> !entry_for(items, j, k))
                    implies m2[k] == entry_grant_at(items, i) by {
                assert(i != last);
                assert(forall|j: int| i < j < p ==> !entry_for(items, j, k));
                let k2 = (entry_grant(items[last], n)->Ok_0).0;
                assert(k2 != k);
            }
            let k2 = (entry_grant(items[last], n)->Ok_0).0;
            assert(k2 != k);
            if m2.contains_key(k) {
                assert(m.contains_key(k));
            }
        }
    }
}

/// The key table keeps, for each key, the last entry that names it: a key
/// is in the table exactly when some entry names it, and its grant is
/// that of the last such entry.
pub proof fn lemma_last_entry_wins(doc: JsonModel, k: Seq<char>)
    requires
        key_table(doc) is Ok,
    ensures
        ({
            let items = table_items(doc)->0;
            let m = key_table(doc)->Ok_0;
            &&& m.contains_key(k) <==> exists|i: int| 0 <= i < items.len() && #[trigger] entry_for(items, i, k)
            &&& forall|i: int|
                0 <= i < items.len() && #[trigger] entry_for(items, i, k) && (forall|j: int|
                    i < j < items.len() ==> !entry_for(items, j, k)) ==> m[k] == entry_grant_at(items, i)
        }),
{
    let items = table_items(doc)->0;
    lemma_prefix_last_wins(items, items.len(), k);
}

/// Every grant that a key table holds for the wildcard tenant is an admin
/// grant: a table that would give the wildcard a lower level is refused.
pub proof fn lemma_wildcard_only_admin(doc: JsonModel)
    requires
        key_table(doc) is Ok,
    ensures
        forall|k: Seq<char>| #[trigger] key_table(doc)->Ok_0.contains_key(k) && key_table(doc)->Ok_0[k].0 == "*"@
            ==> key_table(doc)->Ok_0[k].1 == Scope::Admin,
{
    let items = table_items(doc)->Some_0;
    lemma_prefix_wildcard(items, items.len());
}

proof fn lemma_prefix_wildcard(items: Seq<JsonModel>, n: nat)
    requires
        table_prefix(items, n) is Ok,
    ensures
        forall|k: Seq<char>| #[trigger] table_prefix(items, n)->Ok_0.contains_key(k) && table_prefix(items, n)->Ok_0[k].0 == "*"@
            ==> table_prefix(items, n)->Ok_0[k].1 == Scope::Admin,
    decreases n,
{
    if n > 0 {
        lemma_prefix_wildcard(items, (n - 1) as nat);
    }
}

// ---------------------------------------------------------------------------
// Authorization decisions.
// ---------------------------------------------------------------------------

/// The status class of a refusal.
#[derive(Debug, Clone, Copy, PartialEq, Eq, Structural)]
pub enum StatusCode {
    /// No key, or an unknown key.
    Unauthenticated,
    /// A known key without the level or the tenant that the call needs.
    PermissionDenied,
}

/// Why a request was refused.
#[derive(Debug, Clone, PartialEq)]
pub enum AuthError {
    /// Keys are configured and the request carries none.
    MissingKey,
    /// The request's key is not in the table.
    InvalidKey,
    /// The key's level is below the level the call needs.
    ScopeTooLow { has: Scope, needed: Scope },
    /// The key's tenant does not cover the requested tenant.
    TenantNotCovered { key_tenant: String, tenant: String },
}

impl AuthError {
    /// The status class of the refusal.
    pub fn code(&self) -> (r: StatusCode)
        ensures
            r == match self {
                AuthError::MissingKey | AuthError::InvalidKey => StatusCode::Unauthenticated,
                _ => StatusCode::PermissionDenied,
            },
    {
        match self {
            AuthError::MissingKey | AuthError::InvalidKey => StatusCode::Unauthenticated,
            _ => StatusCode::PermissionDenied,
        }
    }
}

/// The decision on a grant for a call that needs `needed` on `tenant`.
pub open spec fn grant_decision(g: GrantModel, needed: Scope, tenant: Seq<char>) -> Option<AuthErrorKind> {
    if scope_rank(g.1) < scope_rank(needed) {
        Some(AuthErrorKind::ScopeTooLow)
    } else if !tenant_covers(g.0, tenant) {
        Some(AuthErrorKind::TenantNotCovered)
    } else {
        None
    }
}

/// The kinds of refusal, without their details.
pub enum AuthErrorKind {
    MissingKey,
    InvalidKey,
    ScopeTooLow,
    TenantNotCovered,
}

/// `e` is a refusal of the given kind for a key with grant `g`, a call that
/// needs `needed` on `tenant`.
pub open spec fn refusal(e: AuthError, kind: AuthErrorKind, g: GrantModel, needed: Scope, tenant: Seq<char>) -> bool {
    match kind {
        AuthErrorKind::MissingKey => e == AuthError::MissingKey,
        AuthErrorKind::InvalidKey => e == AuthError::InvalidKey,
        AuthErrorKind::ScopeTooLow => e == AuthError::ScopeTooLow { has: g.1, needed },
        AuthErrorKind::TenantNotCovered => e matches AuthError::TenantNotCovered { key_tenant, tenant: t }
            && key_tenant@ == g.0 && t@ == tenant,
    }
}

fn check_grant(g: &KeyGrant, needed: Scope, tenant: &str) -> (r: Result<(), AuthError>)
    ensures
        match grant_decision((g.tenant@, g.scope), needed, tenant@) {
            None => r is Ok,
            Some(kind) => r matches Err(e) && refusal(e, kind, (g.tenant@, g.scope), needed, tenant@),
        },
{
    if !g.scope.allows(needed) {
        return Err(AuthError::ScopeTooLow { has: g.scope, needed });
    }
    if !g.covers_tenant(tenant) {
        return Err(AuthError::TenantNotCovered { key_tenant: g.tenant.clone(), tenant: tenant.to_owned() });
    }
    Ok(())
}

/// The check in a handler: with a grant, its level must cover `needed` and
/// its tenant must cover the request's tenant; without a grant (open mode,
/// in-process calls) the call passes.
pub fn authorize(grant: Option<&KeyGrant>, needed: Scope, tenant: &str) -> (r: Result<(), AuthError>)
    ensures
        match grant {
            None => r is Ok,
            Some(g) => match grant_decision((g.tenant@, g.scope), needed, tenant@) {
                None => r is Ok,
                Some(kind) => r matches Err(e) && refusal(e, kind, (g.tenant@, g.scope), needed, tenant@),
            },
        },
{
    match grant {
        Some(g) => check_grant(g, needed, tenant),
        None => Ok(()),
    }
}

/// The outcome of presenting `key` (if any) to the key table `table`.
pub open spec fn key_decision(table: Map<Seq<char>, GrantModel>, key: Option<Seq<char>>) -> Result<GrantModel, AuthErrorKind> {
    match key {
        None => Err(AuthErrorKind::MissingKey),
        Some(k) => if table.contains_key(k) {
            Ok(table[k])
        } else {
            Err(AuthErrorKind::InvalidKey)
        },
    }
}

/// The interceptor's decision: in open mode (no table) every request
/// passes without a grant; otherwise the key must be present and known,
/// and its grant goes with the request.
pub fn check_key(auth: Option<&ApiKeys>, key: Option<&str>) -> (r: Result<Option<KeyGrant>, AuthError>)
    requires
        auth matches Some(keys) ==> keys.wf(),
    ensures
        match auth {
            None => r == Ok::<Option<KeyGrant>, AuthError>(None),
            Some(keys) => match key_decision(keys.table(), match key { Some(k) => Some(k@), None => None }) {
                Ok(g) => r matches Ok(Some(x)) && (x.tenant@, x.scope) == g,
                Err(AuthErrorKind::MissingKey) => r == Err::<Option<KeyGrant>, AuthError>(AuthError::MissingKey),
                Err(_) => r == Err::<Option<KeyGrant>, AuthError>(AuthError::InvalidKey),
            },
        },
{
    match auth {
        None => Ok(None),
        Some(keys) => match key {
            None => Err(AuthError::MissingKey),
            Some(k) => match keys.authenticate(k) {
                Some(g) => Ok(Some(g)),
                None => Err(AuthError::InvalidKey),
            },
        },
    }
}

/// The token of an `Authorization: Bearer <token>` header value.
pub open spec fn bearer(h: Seq<char>) -> Option<Seq<char>> {
    if h.len() >= 7 && h.take(7) == "Bearer "@ {
        Some(h.skip(7))
    } else {
        None
    }
}

/// The token of a bearer authorization value.
pub fn bearer_token(h: &str) -> (r: Option<&str>)
    ensures
        match bearer(h@) {
            None => r is None,
            Some(t) => r matches Some(x) && x@ == t,
        },
{
    let prefix = "Bearer ";
    proof {
        reveal_strlit("Bearer ");
    }
    let n = h.unicode_len();
    if n < 7 {
        return None;
    }
    let mut i: usize = 0;
    while i < 7
        invariant
            i <= 7,
            n == h@.len(),
            n >= 7,
            prefix@ == "Bearer "@,
            prefix@.len() == 7,
            forall|j: int| 0 <= j < i ==> h@[j] == prefix@[j],
        decreases 7 - i,
    {
        if h.get_char(i) != prefix.get_char(i) {
            assert(h@.take(7)[i as int] != "Bearer "@[i as int]);
            return None;
        }
        i = i + 1;
    }
    assert(h@.take(7) =~= "Bearer "@);
    let t = h.substring_char(7, n);
    assert(t@ =~= h@.skip(7));
    Some(t)
}

/// The key of an HTTP request: the `x-api-key` header first, then the
/// token of an `Authorization: Bearer` header.
pub open spec fn http_key(x_api_key: Option<Seq<char>>, authorization: Option<Seq<char>>) -> Option<Seq<char>> {
    match x_api_key {
        Some(k) => Some(k),
        None => match authorization {
            Some(h) => bearer(h),
            None => None,
        },
    }
}

pub open spec fn opt_view(o: Option<&str>) -> Option<Seq<char>> {
    match o {
        Some(s) => Some(s@),
        None => None,
    }
}

/// HTTP authorization: in open mode every request passes without a grant;
/// otherwise the request's key must be known, its level must cover
/// `needed` and, when a tenant is given, its tenant must cover it. Returns
/// the grant.
pub fn http_authorize(
    auth: Option<&ApiKeys>,
    x_api_key: Option<&str>,
    authorization: Option<&str>,
    needed: Scope,
    tenant: Option<&str>,
) -> (r: Result<Option<KeyGrant>, AuthError>)
    requires
        auth matches Some(keys) ==> keys.wf(),
    ensures
        match auth {
            None => r == Ok::<Option<KeyGrant>, AuthError>(None),
            Some(keys) => match key_decision(keys.table(), http_key(opt_view(x_api_key), opt_view(authorization))) {
                Err(AuthErrorKind::MissingKey) => r == Err::<Option<KeyGrant>, AuthError>(AuthError::MissingKey),
                Err(_) => r == Err::<Option<KeyGrant>, AuthError>(AuthError::InvalidKey),
                Ok(g) => match grant_decision(g, needed, match tenant { Some(t) => t@, None => g.0 }) {
                    None => r matches Ok(Some(x)) && (x.tenant@, x.scope) == g,
                    Some(kind) => r matches Err(e) && refusal(e, kind, g, needed, match tenant { Some(t) => t@, None => g.0 }),
                },
            },
        },
{
    let keys = match auth {
        None => {
            return Ok(None);
        },
        Some(k) => k,
    };
    let key: Option<&str> = match x_api_key {
        Some(k) => Some(k),
        None => match authorization {
            Some(h) => bearer_token(h),
            None => None,
        },
    };
    let grant = match check_key(Some(keys), key) {
        Ok(Some(g)) => g,
        Ok(None) => {
            return Ok(None);
        },
        Err(e) => {
            return Err(e);
        },
    };
    if !grant.scope.allows(needed) {
        return Err(AuthError::ScopeTooLow { has: grant.scope, needed });
    }
    match tenant {
        Some(t) => {
            if !grant.covers_tenant(t) {
                return Err(AuthError::TenantNotCovered { key_tenant: grant.tenant.clone(), tenant: t.to_owned() });
            }
        },
        None => {
            proof {
                reveal_strlit("*");
            }
        },
    }
    Ok(Some(grant))
}

// ---------------------------------------------------------------------------
// Key generation.
// ---------------------------------------------------------------------------

/// The ASCII code of a hex digit (lower case).
pub open spec fn hex_digit(n: u8) -> u8 {
    if n < 10 {
        (0x30 + n) as u8
    } else {
        (0x61 + n - 10) as u8
    }
}

/// Lower-case hex of bytes, two digits per byte, as ASCII codes.
pub open spec fn hex_bytes(b: Seq<u8>) -> Seq<u8>
    decreases b.len(),
{
    if b.len() == 0 {
        Seq::empty()
    } else {
        hex_bytes(b.drop_last()) + seq![hex_digit(b.last() / 16), hex_digit(b.last() % 16)]
    }
}

proof fn lemma_hex_ascii(b: Seq<u8>)
    ensures
        all_ascii(hex_bytes(b)),
        hex_bytes(b).len() == 2 * b.len(),
    decreases b.len(),
{
    if b.len() > 0 {
        lemma_hex_ascii(b.drop_last());
    }
}

fn hex_digit_exec(n: u8) -> (r: u8)
    requires
        n < 16,
    ensures
        r == hex_digit(n),
{
    if n < 10 {
        0x30 + n
    } else {
        0x61 + n - 10
    }
}

fn push_hex(out: &mut Vec<u8>, bytes: &[u8])
    ensures
        final(out)@ == old(out)@ + hex_bytes(bytes@),
{
    let ghost start = out@;
    let mut i: usize = 0;
    while i < bytes.len()
        invariant
            i <= bytes@.len(),
            out@ == start + hex_bytes(bytes@.take(i as int)),
        decreases bytes@.len() - i,
    {
        let b = bytes[i];
        out.push(hex_digit_exec(b / 16));
        out.push(hex_digit_exec(b % 16));
        proof {
            assert(bytes@.take(i + 1).drop_last() =~= bytes@.take(i as int));
            assert(out@ =~= start + hex_bytes(bytes@.take(i + 1)));
        }
        i = i + 1;
    }
    assert(bytes@.take(bytes@.len() as int) =~= bytes@);
}

/// Lower-case hex of bytes, two digits per byte.
pub fn hex_lower(bytes: &[u8]) -> (r: String)
    ensures
        r@ == ascii_chars(hex_bytes(bytes@)),
{
    let mut out: Vec<u8> = Vec::new();
    push_hex(&mut out, bytes);
    proof {
        lemma_hex_ascii(bytes@);
        assert(out@ =~= hex_bytes(bytes@));
    }
    string_from_ascii(out)
}

/// The text of an API key made from random bytes: `nyl_` and their hex.
pub open spec fn api_key_text(b: Seq<u8>) -> Seq<char> {
    ascii_chars(seq![0x6eu8, 0x79u8, 0x6cu8, 0x5fu8] + hex_bytes(b))
}

/// The API key made from the given bytes: `nyl_` and their hex.
pub fn key_from_bytes(bytes: &[u8]) -> (r: String)
    ensures
        r@ == api_key_text(bytes@),
{
    let mut out: Vec<u8> = Vec::new();
    out.push(0x6e);
    out.push(0x79);
    out.push(0x6c);
    out.push(0x5f);
    let ghost head = out@;
    push_hex(&mut out, bytes);
    proof {
        lemma_hex_ascii(bytes@);
        assert(head =~= seq![0x6eu8, 0x79u8, 0x6cu8, 0x5fu8]);
        assert(all_ascii(out@));
    }
    string_from_ascii(out)
}

/// `rand::rng()` and `Rng::fill` (rand): sixteen bytes from the thread-local
/// generator, which rand seeds from the operating system and documents as
/// cryptographically secure. Nothing is stated of the bytes but their
/// number: they are random.
#[verifier::external_body]
fn random_key_bytes() -> (r: Vec<u8>)
    ensures
        r@.len() == 16,
{
    let mut buf = [0u8; 16];
    rand::Rng::fill(&mut rand::rng(), &mut buf);
    buf.to_vec()
}

/// A new API key: `nyl_` and the hex of 128 random bits.
pub fn generate_key() -> (r: String)
    ensures
        exists|b: Seq<u8>| b.len() == 16 && r@ == api_key_text(b),
{
    let bytes = random_key_bytes();
    key_from_bytes(bytes.as_slice())
}
} // verus!
