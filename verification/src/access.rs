//! The access model: accounts, shares and the translation between a store path and the path an
//! account sees. Pure — no database, no engine.
//!
//! Both bindings read the same three tables into an [`AccessView`] once per connection and then
//! ask this module every question. That is what makes the rules one algorithm rather than two.
//!
//! The model in one paragraph: a **grant** gives an account one folder with everything below it,
//! under an **alias** chosen when the grant is made. The account's root lists its aliases and
//! nothing else; under an alias the subtree is the real subtree, unchanged. So a view path is
//! `/<alias>/<rest>` and the store path is `<grant's store path>/<rest>`, a prefix swap. A
//! **single-root** account is the one exception: its root *is* its share, and it can hold no
//! other grant.
//!
//! The rules are all decided at *grant* time ([`Grants::add`]) rather than at query time, because
//! an alias derived from the current set of shares would move an account's paths whenever
//! another share was added or removed.

use vstd::prelude::*;
use vstd::slice::slice_subrange;
use vstd::std_specs::iter::IteratorSpec;
use vstd::string::*;
use crate::chars::{
    after_last, begins, begins_with, find_char, find_text, has_char, is_below, lemma_below_chain, lemma_below_total,
    next_at, occurs, past_last, same_chars, text_below, texts, trim_both_white, trim_end, trim_end_char, trim_white,
    push_chars,
};
use crate::text::{chars_of, same_text, string_of};

pub use crate::projection::{is_root_link, project, unproject, Projected, TargetSpan};

verus! {

/// What an account may do inside a share.
#[derive(Clone, Copy, Debug, PartialEq, Eq, Structural)]
pub enum Rights {
    /// Read: `cat`, `ls`, `tree`, `stat`, `search`, `grep`, `history`, `links`, `meta get/find`,
    /// `sync` to disk, `export`.
    Ro,
    /// `Ro` plus every write, inside the share.
    Rw,
}

impl Rights {
    pub fn as_str(self) -> (r: &'static str)
        ensures
            r@ == self.spelled(),
    {
        match self {
            Rights::Ro => "ro",
            Rights::Rw => "rw",
        }
    }

    /// How the rights are written.
    pub open spec fn spelled(self) -> Seq<char> {
        match self {
            Rights::Ro => "ro"@,
            Rights::Rw => "rw"@,
        }
    }

    pub fn parse(s: &str) -> (r: Option<Rights>)
        ensures
            r == rights_named(s@),
    {
        if same_text(s, "ro") {
            Some(Rights::Ro)
        } else if same_text(s, "rw") {
            Some(Rights::Rw)
        } else {
            None
        }
    }

    pub fn can_write(self) -> (r: bool)
        ensures
            r == (self == Rights::Rw),
    {
        match self {
            Rights::Ro => false,
            Rights::Rw => true,
        }
    }
}

/// The rights a word names.
pub open spec fn rights_named(s: Seq<char>) -> Option<Rights> {
    if s == "ro"@ {
        Some(Rights::Ro)
    } else if s == "rw"@ {
        Some(Rights::Rw)
    } else {
        None
    }
}

/// Why a path under an alias the account knows is nonetheless refused.
#[derive(Clone, Copy, Debug, PartialEq, Eq, Structural)]
pub enum Denial {
    /// The share root is in the trash.
    Dormant,
    /// The grant was revoked, but the account's checkout still has the files.
    Revoked,
    /// Visible, but this operation needs `rw` and the share is `ro`.
    ReadOnly,
}

impl Denial {
    pub fn why(self) -> (r: &'static str)
        ensures
            r@ == match self {
                Denial::Dormant => "its folder is in the trash"@,
                Denial::Revoked => "it is no longer shared with you"@,
                Denial::ReadOnly => "you have read-only access to it"@,
            },
    {
        match self {
            Denial::Dormant => "its folder is in the trash",
            Denial::Revoked => "it is no longer shared with you",
            Denial::ReadOnly => "you have read-only access to it",
        }
    }
}

/// One share: a folder, everything below it, and the account's own name for it.
#[derive(Debug, PartialEq, Eq)]
pub struct Grant {
    /// The node the grant binds to. Grants follow the *node*, so the owner renaming or moving the
    /// shared folder leaves the account's paths untouched.
    pub node_id: i64,
    /// The account's stable name for this share, and the first segment of every path it sees
    /// through it. Empty for a single-root account, whose root is the share itself.
    pub alias: String,
    /// The share root's current path in the store, normalised, without a trailing slash.
    pub store_path: String,
    pub rights: Rights,
    /// A share root that has been deleted to the trash: the alias vanishes from the account's
    /// root and everything under it answers `forbidden` rather than `not found`, so that `sync`
    /// leaves the files on disk instead of deleting them. Restoring the folder revives it.
    pub dormant: bool,
    /// The grant was taken away. The row stays, for the same reason a dormant one does: an
    /// account whose checkout still holds the files must be told `forbidden`, not `not found`,
    /// or its next sync deletes them. This is the one case that destroys data if the two are
    /// conflated, so a revoked grant is remembered rather than dropped.
    pub revoked: bool,
}

/// A grant as a mathematical value.
#[verifier::ext_equal]
pub struct Share {
    pub node_id: i64,
    pub alias: Seq<char>,
    pub store_path: Seq<char>,
    pub rights: Rights,
    pub dormant: bool,
    pub revoked: bool,
}

impl View for Grant {
    type V = Share;

    open spec fn view(&self) -> Share {
        Share {
            node_id: self.node_id,
            alias: self.alias@,
            store_path: self.store_path@,
            rights: self.rights,
            dormant: self.dormant,
            revoked: self.revoked,
        }
    }
}

impl Clone for Grant {
    fn clone(&self) -> (r: Self)
        ensures
            r@ == self@,
    {
        Grant {
            node_id: self.node_id,
            alias: copied(self.alias.as_str()),
            store_path: copied(self.store_path.as_str()),
            rights: self.rights,
            dormant: self.dormant,
            revoked: self.revoked,
        }
    }
}

fn copied(s: &str) -> (r: String)
    ensures
        r@ == s@,
{
    String::from_str(s)
}

impl Share {
    /// Why the grant gives nothing, if it does not. Revocation first: a share both revoked and
    /// whose folder was later trashed is, to its former holder, revoked.
    pub open spec fn denial(self) -> Option<Denial> {
        if self.revoked {
            Some(Denial::Revoked)
        } else if self.dormant {
            Some(Denial::Dormant)
        } else {
            None
        }
    }

    pub open spec fn is_live(self) -> bool {
        !self.revoked && !self.dormant
    }
}

impl Grant {
    /// Live, or the reason it is not.
    pub fn denied(&self) -> (r: Option<Denial>)
        ensures
            r == self@.denial(),
    {
        if self.revoked {
            Some(Denial::Revoked)
        } else if self.dormant {
            Some(Denial::Dormant)
        } else {
            None
        }
    }

    pub fn live(&self) -> (r: bool)
        ensures
            r == self@.is_live(),
    {
        !self.revoked && !self.dormant
    }
}

/// Why a grant could not be added.
#[derive(Clone, Debug, PartialEq, Eq)]
pub enum GrantError {
    /// The default alias is taken in this account and no explicit one was given. Never
    /// auto-suffixed: `contracts-2` would make an account's paths depend on the order its shares
    /// were added, which is the one thing the alias exists to prevent.
    AliasTaken { alias: String, held_by: String },
    /// This account already holds a grant that contains the new one, or is contained by it. One
    /// file would have two paths with two rights.
    Overlaps { existing: String, existing_alias: String },
    /// The account already holds this very node under another alias.
    AlreadyGranted { alias: String },
    /// A single-root account holds its one share and no other.
    SingleRoot { root: String },
    /// The root is not a folder anyone can share: `/` itself, or a path that is not normalised.
    BadRoot { path: String, why: &'static str },
    /// An alias is one path segment, and not one of the two that mean something else.
    BadAlias { alias: String, why: &'static str },
}

/// A grant error as a mathematical value.
pub enum Refusal {
    AliasTaken { alias: Seq<char>, held_by: Seq<char> },
    Overlaps { existing: Seq<char>, existing_alias: Seq<char> },
    AlreadyGranted { alias: Seq<char> },
    SingleRoot { root: Seq<char> },
    BadRoot { path: Seq<char>, why: Seq<char> },
    BadAlias { alias: Seq<char>, why: Seq<char> },
}

impl View for GrantError {
    type V = Refusal;

    open spec fn view(&self) -> Refusal {
        match self {
            GrantError::AliasTaken { alias, held_by } => Refusal::AliasTaken { alias: alias@, held_by: held_by@ },
            GrantError::Overlaps { existing, existing_alias } => Refusal::Overlaps {
                existing: existing@,
                existing_alias: existing_alias@,
            },
            GrantError::AlreadyGranted { alias } => Refusal::AlreadyGranted { alias: alias@ },
            GrantError::SingleRoot { root } => Refusal::SingleRoot { root: root@ },
            GrantError::BadRoot { path, why } => Refusal::BadRoot { path: path@, why: why@ },
            GrantError::BadAlias { alias, why } => Refusal::BadAlias { alias: alias@, why: why@ },
        }
    }
}

impl Refusal {
    /// The sentence shown for the refusal.
    pub open spec fn sentence(self) -> Seq<char> {
        match self {
            Refusal::AliasTaken { alias, held_by } => "the alias '"@ + alias + "' is already this account's name for "@
                + held_by
                + "; choose another with --as, or --reuse-alias to bind it to a different folder — which is a move for anything that already synced it to disk"@,
            Refusal::Overlaps { existing, existing_alias } => "this account already has "@ + existing + " as '"@
                + existing_alias
                + "', and shares may not overlap; grant the subfolder alone, or raise the parent's rights"@,
            Refusal::AlreadyGranted { alias } => "this account already sees that folder as '"@ + alias
                + "'; regrant to change its rights"@,
            Refusal::SingleRoot { root } => "this is a single-root account: its root is "@ + root
                + " and it can hold no other share. `account convert NAME --multi` makes it a multi-share account, which changes every path it sees"@,
            Refusal::BadRoot { path, why } => "cannot share "@ + path + ": "@ + why,
            Refusal::BadAlias { alias, why } => "'"@ + alias + "' cannot be an alias: "@ + why,
        }
    }
}

impl GrantError {
    /// The sentence shown for the error.
    pub fn message(&self) -> (r: String)
        ensures
            r@ == self@.sentence(),
    {
        let mut out = String::new();
        match self {
            GrantError::AliasTaken { alias, held_by } => {
                out.append("the alias '");
                out.append(alias.as_str());
                out.append("' is already this account's name for ");
                out.append(held_by.as_str());
                out.append(
                    "; choose another with --as, or --reuse-alias to bind it to a different folder — which is a move for anything that already synced it to disk",
                );
            },
            GrantError::Overlaps { existing, existing_alias } => {
                out.append("this account already has ");
                out.append(existing.as_str());
                out.append(" as '");
                out.append(existing_alias.as_str());
                out.append("', and shares may not overlap; grant the subfolder alone, or raise the parent's rights");
            },
            GrantError::AlreadyGranted { alias } => {
                out.append("this account already sees that folder as '");
                out.append(alias.as_str());
                out.append("'; regrant to change its rights");
            },
            GrantError::SingleRoot { root } => {
                out.append("this is a single-root account: its root is ");
                out.append(root.as_str());
                out.append(
                    " and it can hold no other share. `account convert NAME --multi` makes it a multi-share account, which changes every path it sees",
                );
            },
            GrantError::BadRoot { path, why } => {
                out.append("cannot share ");
                out.append(path.as_str());
                out.append(": ");
                out.append(why);
            },
            GrantError::BadAlias { alias, why } => {
                out.append("'");
                out.append(alias.as_str());
                out.append("' cannot be an alias: ");
                out.append(why);
            },
        }
        assert(out@ =~= self@.sentence());
        out
    }
}

/// What kind of namespace an account has.
#[derive(Clone, Copy, Debug, PartialEq, Eq, Structural)]
pub enum Namespace {
    /// The usual shape: the root lists aliases, and every path has an alias as its first segment.
    /// Always one alias level, even for an account with a single share — otherwise adding a
    /// second share later would shift every existing path down one level.
    Aliased,
    /// `account create NAME --root /legal/contracts`: the root *is* the share. The right shape
    /// for an agent that owns exactly one vault.
    SingleRoot,
}

/// Is `inner` the folder `outer` itself or below it?
pub open spec fn under(outer: Seq<char>, inner: Seq<char>) -> bool {
    inner == outer || begins(inner, outer) && outer.len() < inner.len() && inner[outer.len() as int] == '/'
}

/// Is `inner` `outer` itself or below it? Both normalised, no trailing slash.
pub fn contains(outer: &str, inner: &str) -> (r: bool)
    ensures
        r == under(outer@, inner@),
{
    let o = chars_of(outer);
    let i = chars_of(inner);
    same_chars(i.as_slice(), o.as_slice()) || begins_with(i.as_slice(), o.as_slice()) && o.len() < i.len() && i[o.len()] == '/'
}

/// What is wrong with an alias.
pub open spec fn alias_fault(alias: Seq<char>) -> Option<Seq<char>> {
    if alias.len() == 0 {
        Some("it is empty"@)
    } else if alias == "."@ || alias == ".."@ {
        Some("it is a relative path segment"@)
    } else if alias.contains('/') {
        Some("an alias is one path segment"@)
    } else if alias.contains('\0') {
        Some("it contains NUL"@)
    } else if trim_white(alias) != alias {
        Some("it has leading or trailing whitespace"@)
    } else {
        None
    }
}

/// An alias is one path segment. `.` and `..` are refused by the path normaliser anyway; the rest
/// would produce a path no one can address.
fn check_alias(alias: &str) -> (r: Option<&'static str>)
    ensures
        match r {
            Some(w) => alias_fault(alias@) == Some(w@),
            None => alias_fault(alias@) is None,
        },
{
    let a = chars_of(alias);
    if a.len() == 0 {
        Some("it is empty")
    } else if same_text(alias, ".") || same_text(alias, "..") {
        Some("it is a relative path segment")
    } else if has_char(a.as_slice(), '/') {
        Some("an alias is one path segment")
    } else if has_char(a.as_slice(), '\0') {
        Some("it contains NUL")
    } else if !same_chars(trim_both_white(a.as_slice()), a.as_slice()) {
        Some("it has leading or trailing whitespace")
    } else {
        None
    }
}

/// An account's namespace: its grants, and the rules for adding to them.
///
/// Kept sorted by alias, which is the order a root listing wants and makes the overlap test a
/// scan of a handful of rows. The table is tiny by construction — a grant per share per account.
#[derive(Debug)]
pub struct Grants {
    rows: Vec<Grant>,
}

/// The shares of some grants.
pub open spec fn shares(rows: Seq<Grant>) -> Seq<Share> {
    Seq::new(rows.len(), |i: int| rows[i]@)
}

/// No alias twice, and all in order.
pub open spec fn by_alias_order(rows: Seq<Share>) -> bool {
    forall|i: int, j: int| 0 <= i < j < rows.len() ==> text_below((#[trigger] rows[i]).alias, (#[trigger] rows[j]).alias)
}

impl View for Grants {
    type V = Seq<Share>;

    closed spec fn view(&self) -> Seq<Share> {
        shares(self.rows@)
    }
}

/// Where an alias stands among shares, or would.
pub open spec fn slot(rows: Seq<Share>, alias: Seq<char>) -> int
    decreases rows.len(),
{
    if rows.len() == 0 {
        0
    } else if text_below(rows[0].alias, alias) {
        1 + slot(rows.skip(1), alias)
    } else {
        0
    }
}

/// The share an alias names.
pub open spec fn named(rows: Seq<Share>, alias: Seq<char>) -> Option<Share> {
    let i = slot(rows, alias);
    if i < rows.len() && rows[i].alias == alias {
        Some(rows[i])
    } else {
        None
    }
}

/// A share put in, in place of one with its alias.
pub open spec fn put(rows: Seq<Share>, g: Share) -> Seq<Share> {
    let i = slot(rows, g.alias);
    if i < rows.len() && rows[i].alias == g.alias {
        rows.update(i, g)
    } else {
        rows.insert(i, g)
    }
}

/// Shares without the one an alias names.
pub open spec fn dropped(rows: Seq<Share>, alias: Seq<char>) -> Seq<Share> {
    let i = slot(rows, alias);
    if i < rows.len() && rows[i].alias == alias {
        rows.remove(i)
    } else {
        rows
    }
}

pub proof fn lemma_slot(rows: Seq<Share>, alias: Seq<char>)
    ensures
        0 <= slot(rows, alias) <= rows.len(),
        forall|i: int| 0 <= i < slot(rows, alias) ==> text_below((#[trigger] rows[i]).alias, alias),
        slot(rows, alias) < rows.len() ==> !text_below(rows[slot(rows, alias)].alias, alias),
    decreases rows.len(),
{
    if rows.len() > 0 && text_below(rows[0].alias, alias) {
        lemma_slot(rows.skip(1), alias);
        assert forall|i: int| 0 <= i < slot(rows, alias) implies text_below((#[trigger] rows[i]).alias, alias) by {
            if i > 0 {
                assert(rows.skip(1)[i - 1] == rows[i]);
            }
        }
    }
}

/// A share is found by its alias, wherever it stands.
pub proof fn lemma_named(rows: Seq<Share>, i: int)
    requires
        by_alias_order(rows),
        0 <= i < rows.len(),
    ensures
        named(rows, rows[i].alias) == Some(rows[i]),
        slot(rows, rows[i].alias) == i,
{
    let a = rows[i].alias;
    lemma_slot(rows, a);
    let k = slot(rows, a);
    if k < i {
        assert(text_below(rows[k].alias, rows[i].alias));
    } else if i < k {
        assert(text_below(rows[i].alias, a));
        lemma_below_total(a, a);
    }
}

/// Putting a share in keeps the order.
pub proof fn lemma_put(rows: Seq<Share>, g: Share)
    requires
        by_alias_order(rows),
    ensures
        by_alias_order(put(rows, g)),
        named(put(rows, g), g.alias) == Some(g),
        put(rows, g)[slot(rows, g.alias)] == g,
{
    lemma_slot(rows, g.alias);
    let k = slot(rows, g.alias);
    let out = put(rows, g);
    let found = k < rows.len() && rows[k].alias == g.alias;
    assert forall|i: int, j: int| 0 <= i < j < out.len() implies text_below((#[trigger] out[i]).alias, (#[trigger] out[j]).alias) by {
        if found {
            if i == k || j == k {
                assert(text_below(rows[i].alias, rows[j].alias));
            } else {
                assert(text_below(rows[i].alias, rows[j].alias));
            }
        } else {
            if j < k {
                assert(text_below(rows[i].alias, rows[j].alias));
            } else if j == k {
                assert(text_below(rows[i].alias, g.alias));
            } else if i > k {
                assert(text_below(rows[i - 1].alias, rows[j - 1].alias));
            } else if i == k {
                lemma_below_total(rows[k].alias, g.alias);
                if j - 1 > k {
                    lemma_below_chain(g.alias, rows[k].alias, rows[j - 1].alias);
                }
            } else {
                assert(text_below(rows[i].alias, rows[j - 1].alias));
            }
        }
    }
    assert(out[k] == g);
    lemma_named(out, k);
}

/// The first row of a node.
pub open spec fn kin(rows: Seq<Share>, node_id: i64) -> int
    decreases rows.len(),
{
    if rows.len() == 0 || rows[0].node_id == node_id {
        0
    } else {
        1 + kin(rows.skip(1), node_id)
    }
}

/// Would a row forbid a share at `path`?
pub open spec fn row_refusal(rows: Seq<Share>, k: int, path: Seq<char>, i: int) -> Option<Refusal> {
    let g = rows[i];
    if i == k {
        if g.is_live() {
            Some(Refusal::AlreadyGranted { alias: g.alias })
        } else {
            None
        }
    } else if under(g.store_path, path) || under(path, g.store_path) {
        Some(Refusal::Overlaps { existing: g.store_path, existing_alias: g.alias })
    } else {
        None
    }
}

/// The first of the rows from `i` on that forbids a share at `path`.
pub open spec fn rows_refusal(rows: Seq<Share>, k: int, path: Seq<char>, i: int) -> Option<Refusal>
    decreases rows.len() - i,
{
    if i >= rows.len() {
        None
    } else {
        match row_refusal(rows, k, path, i) {
            Some(e) => Some(e),
            None => rows_refusal(rows, k, path, i + 1),
        }
    }
}

/// A share someone asks for.
pub struct Request {
    pub ns: Namespace,
    pub node_id: i64,
    pub store_path: Seq<char>,
    pub alias: Option<Seq<char>>,
    pub rights: Rights,
}

impl Request {
    /// The path, without slashes at its end.
    pub open spec fn path(self) -> Seq<char> {
        trim_end(self.store_path, '/')
    }

    /// The alias asked for, or the folder's own name.
    pub open spec fn name(self) -> Seq<char> {
        match self.alias {
            Some(a) => a,
            None => self.path().skip(past_last(self.path(), '/')),
        }
    }

    /// The share that is added: a node the account held before comes back under its alias.
    pub open spec fn share(self, rows: Seq<Share>) -> Share {
        let k = kin(rows, self.node_id);
        Share {
            node_id: self.node_id,
            alias: if k < rows.len() {
                rows[k].alias
            } else if self.ns == Namespace::SingleRoot {
                Seq::empty()
            } else {
                self.name()
            },
            store_path: self.path(),
            rights: self.rights,
            dormant: false,
            revoked: false,
        }
    }

    /// Why the share cannot be added to `rows`.
    pub open spec fn refusal(self, rows: Seq<Share>) -> Option<Refusal> {
        let p = self.path();
        if p.len() == 0 {
            Some(Refusal::BadRoot { path: "/"@, why: "the store root is everything; share a folder inside it"@ })
        } else if p[0] != '/' || occurs(p, "//"@) {
            Some(Refusal::BadRoot { path: p, why: "not a normalised store path"@ })
        } else if self.ns == Namespace::SingleRoot && rows.len() > 0 {
            Some(Refusal::SingleRoot { root: rows[0].store_path })
        } else if self.ns == Namespace::Aliased && alias_fault(self.name()) is Some {
            Some(Refusal::BadAlias { alias: self.name(), why: alias_fault(self.name())->0 })
        } else if self.ns == Namespace::Aliased && self.alias_held(rows) {
            Some(Refusal::AliasTaken { alias: self.name(), held_by: (named(rows, self.name())->0).store_path })
        } else {
            rows_refusal(rows, kin(rows, self.node_id), p, 0)
        }
    }

    /// Is the alias taken? A revoked grant keeps its alias reserved: the account may still have
    /// those files on disk. Granting the same node again revives it.
    pub open spec fn alias_held(self, rows: Seq<Share>) -> bool {
        named(rows, self.name()) matches Some(h) && !(h.revoked && h.node_id == self.node_id)
    }
}

proof fn lemma_kin(rows: Seq<Share>, node_id: i64)
    ensures
        0 <= kin(rows, node_id) <= rows.len(),
        kin(rows, node_id) < rows.len() ==> rows[kin(rows, node_id)].node_id == node_id,
        forall|i: int| 0 <= i < kin(rows, node_id) ==> (#[trigger] rows[i]).node_id != node_id,
    decreases rows.len(),
{
    if rows.len() > 0 && rows[0].node_id != node_id {
        lemma_kin(rows.skip(1), node_id);
        assert forall|i: int| 0 <= i < kin(rows, node_id) implies (#[trigger] rows[i]).node_id != node_id by {
            if i > 0 {
                assert(rows.skip(1)[i - 1] == rows[i]);
            }
        }
    }
}

impl Default for Grants {
    fn default() -> (r: Self)
        ensures
            r@ == Seq::<Share>::empty(),
    {
        let g = Grants { rows: Vec::new() };
        assert(g@ =~= Seq::<Share>::empty());
        g
    }
}

impl Clone for Grants {
    fn clone(&self) -> (r: Self)
        ensures
            r@ == self@,
    {
        let mut rows: Vec<Grant> = Vec::new();
        let mut i: usize = 0;
        while i < self.rows.len()
            invariant
                i <= self.rows@.len(),
                rows@.len() == i,
                forall|k: int| 0 <= k < i ==> (#[trigger] rows@[k])@ == self.rows@[k]@,
            decreases self.rows@.len() - i,
        {
            let g = self.rows[i].clone();
            rows.push(g);
            i += 1;
        }
        assert(shares(rows@) =~= shares(self.rows@));
        Grants { rows }
    }
}

impl Grants {
    /// Sorted by alias, no alias twice.
    pub open spec fn ok(&self) -> bool {
        by_alias_order(self@)
    }

    pub fn new() -> (r: Self)
        ensures
            r@ == Seq::<Share>::empty(),
            r.ok(),
    {
        Grants::default()
    }

    /// Build from rows as they come out of the store, refusing nothing: the store is the record
    /// of what was granted, and a rule added later must not make an existing store unreadable.
    /// Of two rows with one alias the later stands.
    pub fn from_rows(rows: Vec<Grant>) -> (r: Self)
        ensures
            r@ == all_put(shares(rows@)),
            r.ok(),
    {
        let mut g = Grants::new();
        let mut i: usize = 0;
        let ghost all = shares(rows@);
        assert(all.take(0) =~= Seq::empty());
        while i < rows.len()
            invariant
                i <= rows@.len(),
                all == shares(rows@),
                g@ == all_put(all.take(i as int)),
                g.ok(),
            decreases rows@.len() - i,
        {
            let one = rows[i].clone();
            proof {
                assert(all.take(i + 1).drop_last() =~= all.take(i as int));
                assert(all.take(i + 1).last() == one@);
            }
            g.insert(one);
            i += 1;
        }
        assert(all.take(i as int) =~= all);
        g
    }

    fn find_slot(&self, alias: &[char]) -> (r: usize)
        ensures
            r == slot(self@, alias@),
            r <= self.rows@.len(),
    {
        let mut i: usize = 0;
        proof {
            lemma_slot(self@, alias@);
            assert(self@.skip(0) =~= self@);
        }
        while i < self.rows.len() && is_below(chars_of(self.rows[i].alias.as_str()).as_slice(), alias)
            invariant
                i <= self.rows@.len(),
                slot(self@, alias@) == i + slot(self@.skip(i as int), alias@),
            decreases self.rows@.len() - i,
        {
            assert(self@.skip(i as int)[0] == self.rows@[i as int]@);
            assert(self@.skip(i as int).skip(1) =~= self@.skip(i + 1));
            i += 1;
        }
        proof {
            if i < self.rows@.len() {
                assert(self@.skip(i as int)[0] == self.rows@[i as int]@);
            }
        }
        i
    }

    fn insert(&mut self, g: Grant)
        requires
            old(self).ok(),
        ensures
            final(self)@ == put(old(self)@, g@),
            final(self).ok(),
    {
        let a = chars_of(g.alias.as_str());
        let i = self.find_slot(a.as_slice());
        let ghost before = self@;
        let ghost share = g@;
        proof {
            lemma_put(self@, g@);
        }
        if i < self.rows.len() && same_text(self.rows[i].alias.as_str(), g.alias.as_str()) {
            self.rows.set(i, g);
            assert(self@ =~= before.update(i as int, share));
        } else {
            self.rows.insert(i, g);
            assert(self@ =~= before.insert(i as int, share));
        }
    }

    pub fn is_empty(&self) -> (r: bool)
        ensures
            r == (self@.len() == 0),
    {
        self.rows.len() == 0
    }

    pub fn len(&self) -> (r: usize)
        ensures
            r == self@.len(),
    {
        self.rows.len()
    }

    /// The grant at place `i`, in the order of aliases.
    pub fn at(&self, i: usize) -> (r: &Grant)
        requires
            i < self@.len(),
        ensures
            r@ == self@[i as int],
    {
        &self.rows[i]
    }

    /// Every grant, by alias.
    pub fn iter(&self) -> (r: std::slice::Iter<'_, Grant>)
        ensures
            IteratorSpec::remaining(&r).len() == self@.len(),
            forall|i: int| 0 <= i < self@.len() ==> (#[trigger] IteratorSpec::remaining(&r)[i])@ == self@[i],
    {
        broadcast use vstd::std_specs::slice::axiom_spec_slice_iter;

        let r = self.rows.as_slice().iter();
        r
    }

    /// The grants an account's root lists: the live ones. A dormant share is still a grant — it
    /// is how `sync` knows to leave the directory alone — but its alias is not listed.
    pub fn live<'a>(&'a self) -> (out: Vec<&'a Grant>)
        ensures
            grant_refs(out@) == live_shares(self@),
    {
        let mut out: Vec<&'a Grant> = Vec::new();
        let mut i: usize = 0;
        assert(self@.take(0) =~= Seq::empty());
        assert(grant_refs(out@) =~= live_shares(self@.take(0)));
        while i < self.rows.len()
            invariant
                i <= self.rows@.len(),
                grant_refs(out@) == live_shares(self@.take(i as int)),
            decreases self.rows@.len() - i,
        {
            let g: &'a Grant = &self.rows[i];
            let ghost before = out@;
            proof {
                assert(self@.take(i + 1).drop_last() =~= self@.take(i as int));
                assert(self@.take(i + 1).last() == g@);
            }
            if g.live() {
                out.push(g);
                assert(grant_refs(out@) =~= grant_refs(before).push(g@));
            }
            i += 1;
        }
        assert(self@.take(i as int) =~= self@);
        out
    }

    pub fn by_alias(&self, alias: &str) -> (r: Option<&Grant>)
        ensures
            match r {
                Some(g) => named(self@, alias@) == Some(g@),
                None => named(self@, alias@) is None,
            },
    {
        let a = chars_of(alias);
        let i = self.find_slot(a.as_slice());
        if i < self.rows.len() && same_text(self.rows[i].alias.as_str(), alias) {
            Some(&self.rows[i])
        } else {
            None
        }
    }

    fn find_kin(&self, node_id: i64) -> (r: usize)
        ensures
            r == kin(self@, node_id),
            r <= self.rows@.len(),
    {
        let mut i: usize = 0;
        proof {
            lemma_kin(self@, node_id);
            assert(self@.skip(0) =~= self@);
        }
        while i < self.rows.len() && self.rows[i].node_id != node_id
            invariant
                i <= self.rows@.len(),
                kin(self@, node_id) == i + kin(self@.skip(i as int), node_id),
            decreases self.rows@.len() - i,
        {
            assert(self@.skip(i as int)[0] == self.rows@[i as int]@);
            assert(self@.skip(i as int).skip(1) =~= self@.skip(i + 1));
            i += 1;
        }
        proof {
            if i < self.rows@.len() {
                assert(self@.skip(i as int)[0] == self.rows@[i as int]@);
            }
        }
        i
    }

    pub fn by_node(&self, node_id: i64) -> (r: Option<&Grant>)
        ensures
            ({
                let k = kin(self@, node_id);
                match r {
                    Some(g) => k < self@.len() && g@ == self@[k],
                    None => k == self@.len(),
                }
            }),
    {
        let k = self.find_kin(node_id);
        if k < self.rows.len() {
            Some(&self.rows[k])
        } else {
            None
        }
    }

    fn refused_by_rows(&self, k: usize, path: &str) -> (r: Option<GrantError>)
        ensures
            match r {
                Some(e) => rows_refusal(self@, k as int, path@, 0) == Some(e@),
                None => rows_refusal(self@, k as int, path@, 0) is None,
            },
    {
        let mut i: usize = 0;
        while i < self.rows.len()
            invariant
                i <= self.rows@.len(),
                rows_refusal(self@, k as int, path@, 0) == rows_refusal(self@, k as int, path@, i as int),
            decreases self.rows@.len() - i,
        {
            let g = &self.rows[i];
            assert(self@[i as int] == g@);
            if i == k {
                if g.live() {
                    return Some(GrantError::AlreadyGranted { alias: copied(g.alias.as_str()) });
                }
            } else if contains(g.store_path.as_str(), path) || contains(path, g.store_path.as_str()) {
                return Some(
                    GrantError::Overlaps {
                        existing: copied(g.store_path.as_str()),
                        existing_alias: copied(g.alias.as_str()),
                    },
                );
            }
            i += 1;
        }
        None
    }

    /// Add a grant, applying every rule decided at grant time.
    ///
    /// `alias` is the explicit `--as`; `None` defaults to the share root's own name, and a
    /// collision is then refused rather than suffixed.
    ///
    /// Granting a folder that was taken away is how it comes back, with whatever rights this
    /// grant names. Granting one the account already has is a mistake worth naming. An account
    /// may not hold two shares where one contains the other, because the same file would then
    /// have two paths and two rights.
    pub fn add(&mut self, ns: Namespace, node_id: i64, store_path: &str, alias: Option<&str>, rights: Rights) -> (r: Result<
        Grant,
        GrantError,
    >)
        requires
            old(self).ok(),
        ensures
            final(self).ok(),
            ({
                let q = Request {
                    ns,
                    node_id,
                    store_path: store_path@,
                    alias: match alias {
                        Some(a) => Some(a@),
                        None => None,
                    },
                    rights,
                };
                match r {
                    Ok(g) => q.refusal(old(self)@) is None && g@ == q.share(old(self)@) && final(self)@ == put(
                        old(self)@,
                        g@,
                    ),
                    Err(e) => q.refusal(old(self)@) == Some(e@) && final(self)@ == old(self)@,
                }
            }),
    {
        let ghost q = Request {
            ns,
            node_id,
            store_path: store_path@,
            alias: match alias {
                Some(a) => Some(a@),
                None => None,
            },
            rights,
        };
        let raw = chars_of(store_path);
        let p = trim_end_char(raw.as_slice(), '/');
        let slashes = chars_of("//");
        if p.len() == 0 {
            return Err(
                GrantError::BadRoot {
                    path: copied("/"),
                    why: "the store root is everything; share a folder inside it",
                },
            );
        }
        let path = string_of(p);
        if p[0] != '/' || find_text(p, slashes.as_slice(), 0).is_some() {
            return Err(GrantError::BadRoot { path, why: "not a normalised store path" });
        }
        if ns == Namespace::SingleRoot && self.rows.len() > 0 {
            return Err(GrantError::SingleRoot { root: copied(self.rows[0].store_path.as_str()) });
        }
        let name: String = match alias {
            Some(a) => copied(a),
            None => {
                let i = after_last(p, '/');
                let tail = slice_subrange(p, i, p.len());
                assert(tail@ =~= p@.skip(i as int));
                string_of(tail)
            },
        };
        assert(name@ == q.name());
        if ns == Namespace::Aliased {
            match check_alias(name.as_str()) {
                Some(why) => {
                    return Err(GrantError::BadAlias { alias: name, why });
                },
                None => {},
            }
            match self.by_alias(name.as_str()) {
                Some(held) => {
                    if !(held.revoked && held.node_id == node_id) {
                        let held_by = copied(held.store_path.as_str());
                        return Err(GrantError::AliasTaken { alias: name, held_by });
                    }
                },
                None => {},
            }
        }
        let k = self.find_kin(node_id);
        match self.refused_by_rows(k, path.as_str()) {
            Some(e) => {
                return Err(e);
            },
            None => {},
        }
        let alias_kept: String = if k < self.rows.len() {
            assert(self@[k as int] == self.rows@[k as int]@);
            copied(self.rows[k].alias.as_str())
        } else if ns == Namespace::SingleRoot {
            String::new()
        } else {
            name
        };
        let g = Grant { node_id, alias: alias_kept, store_path: path, rights, dormant: false, revoked: false };
        assert(g@ =~= q.share(self@));
        self.insert(g.clone());
        Ok(g)
    }

    /// Change an alias. A move for the account, not a delete and a create: it is recorded as a
    /// path event so that `sync` moves the directory on disk rather than deleting it and pulling
    /// every file down again.
    pub fn rename(&mut self, from: &str, to: &str) -> (r: Result<Grant, GrantError>)
        requires
            old(self).ok(),
        ensures
            final(self).ok(),
            match rename_refusal(old(self)@, from@, to@) {
                Some(e) => r is Err && r->Err_0@ == e && final(self)@ == old(self)@,
                None => r is Ok && r->Ok_0@ == (Share { alias: to@, ..(named(old(self)@, from@)->0) }) && final(self)@ == put(
                    dropped(old(self)@, from@),
                    r->Ok_0@,
                ),
            },
    {
        match check_alias(to) {
            Some(why) => {
                return Err(GrantError::BadAlias { alias: copied(to), why });
            },
            None => {},
        }
        match self.by_alias(to) {
            Some(held) => {
                let held_by = copied(held.store_path.as_str());
                return Err(GrantError::AliasTaken { alias: copied(to), held_by });
            },
            None => {},
        }
        match self.revoke(from) {
            Some(g) => {
                let moved = Grant {
                    node_id: g.node_id,
                    alias: copied(to),
                    store_path: g.store_path,
                    rights: g.rights,
                    dormant: g.dormant,
                    revoked: g.revoked,
                };
                self.insert(moved.clone());
                Ok(moved)
            },
            None => Err(GrantError::BadAlias { alias: copied(from), why: "this account has no such share" }),
        }
    }

    pub fn revoke(&mut self, alias: &str) -> (r: Option<Grant>)
        requires
            old(self).ok(),
        ensures
            final(self).ok(),
            final(self)@ == dropped(old(self)@, alias@),
            match r {
                Some(g) => named(old(self)@, alias@) == Some(g@),
                None => named(old(self)@, alias@) is None,
            },
    {
        let a = chars_of(alias);
        let i = self.find_slot(a.as_slice());
        let ghost before = self@;
        if i < self.rows.len() && same_text(self.rows[i].alias.as_str(), alias) {
            let g = self.rows.remove(i);
            proof {
                assert(self@ =~= before.remove(i as int));
                assert forall|x: int, y: int| 0 <= x < y < self@.len() implies text_below(
                    (#[trigger] self@[x]).alias,
                    (#[trigger] self@[y]).alias,
                ) by {
                    let x0 = if x < i { x } else { x + 1 };
                    let y0 = if y < i { y } else { y + 1 };
                    assert(text_below(before[x0].alias, before[y0].alias));
                }
            }
            Some(g)
        } else {
            None
        }
    }
}

/// Rows put in one after the other.
pub open spec fn all_put(rows: Seq<Share>) -> Seq<Share>
    decreases rows.len(),
{
    if rows.len() == 0 {
        Seq::empty()
    } else {
        put(all_put(rows.drop_last()), rows.last())
    }
}

pub open spec fn live_shares(rows: Seq<Share>) -> Seq<Share>
    decreases rows.len(),
{
    if rows.len() == 0 {
        Seq::empty()
    } else if rows.last().is_live() {
        live_shares(rows.drop_last()).push(rows.last())
    } else {
        live_shares(rows.drop_last())
    }
}

pub open spec fn grant_refs(v: Seq<&Grant>) -> Seq<Share> {
    Seq::new(v.len(), |i: int| v[i]@)
}

/// Why an alias cannot be changed.
pub open spec fn rename_refusal(rows: Seq<Share>, from: Seq<char>, to: Seq<char>) -> Option<Refusal> {
    if alias_fault(to) is Some {
        Some(Refusal::BadAlias { alias: to, why: alias_fault(to)->0 })
    } else if named(rows, to) is Some {
        Some(Refusal::AliasTaken { alias: to, held_by: (named(rows, to)->0).store_path })
    } else if named(rows, from) is None {
        Some(Refusal::BadAlias { alias: from, why: "this account has no such share"@ })
    } else {
        None
    }
}

/// What a view path turned out to be.
#[derive(Clone, Debug, PartialEq, Eq)]
pub enum Resolved {
    /// The account's root. Not a folder: it lists the shares and nothing may be written at it.
    Root,
    /// A path inside a share, with the rights that share carries.
    In { store_path: String, rights: Rights, alias: String, node_id: i64 },
    /// Under an alias this account has, or had — a dormant or revoked share. Distinct from
    /// `NotFound` on purpose: this is the case that destroys data if the two are conflated,
    /// because `sync` deletes what is absent and leaves alone what is forbidden.
    Forbidden { alias: String, why: Denial },
    /// No alias of this account begins this path. The account learns nothing, and in particular
    /// cannot tell a real store path from one that was never there.
    NotFound,
}

/// What a view path is, as a mathematical value.
pub enum Place {
    Root,
    In { store_path: Seq<char>, rights: Rights, alias: Seq<char>, node_id: i64 },
    Forbidden { alias: Seq<char>, why: Denial },
    NotFound,
}

impl View for Resolved {
    type V = Place;

    open spec fn view(&self) -> Place {
        match self {
            Resolved::Root => Place::Root,
            Resolved::In { store_path, rights, alias, node_id } => Place::In {
                store_path: store_path@,
                rights: *rights,
                alias: alias@,
                node_id: *node_id,
            },
            Resolved::Forbidden { alias, why } => Place::Forbidden { alias: alias@, why: *why },
            Resolved::NotFound => Place::NotFound,
        }
    }
}

/// One connection's account, and everything a question about a path needs.
///
/// The admin — whoever opened the store without a token — has no view: they see store paths and
/// every node. `AccessView::admin()` is that, and `is_admin()` is the one branch every caller
/// takes before doing any of this work, so the un-authenticated path costs a bool test.
#[derive(Debug)]
pub struct AccessView {
    account: Option<String>,
    ns: Namespace,
    grants: Grants,
}

/// A connection's account as a mathematical value.
#[verifier::ext_equal]
pub struct Account {
    pub name: Option<Seq<char>>,
    pub ns: Namespace,
    pub rows: Seq<Share>,
}

impl View for AccessView {
    type V = Account;

    closed spec fn view(&self) -> Account {
        Account {
            name: match self.account {
                Some(s) => Some(s@),
                None => None,
            },
            ns: self.ns,
            rows: self.grants@,
        }
    }
}

/// The first of the live shares from `i` on that holds a store path; the number of shares if none
/// does.
pub open spec fn holder_from(rows: Seq<Share>, path: Seq<char>, i: int) -> int
    decreases rows.len() - i,
{
    if i >= rows.len() {
        rows.len() as int
    } else if under(rows[i].store_path, path) && rows[i].is_live() {
        i
    } else {
        holder_from(rows, path, i + 1)
    }
}

/// The first live share whose root is `path`.
pub open spec fn root_from(rows: Seq<Share>, path: Seq<char>, i: int) -> Option<Share>
    decreases rows.len() - i,
{
    if i >= rows.len() {
        None
    } else if rows[i].store_path == path && rows[i].is_live() {
        Some(rows[i])
    } else {
        root_from(rows, path, i + 1)
    }
}

/// A path without slashes at its end; the root is `/`.
pub open spec fn plain_path(path: Seq<char>) -> Seq<char> {
    if trim_end(path, '/').len() == 0 {
        "/"@
    } else {
        trim_end(path, '/')
    }
}

/// The first segment of a path, which ends at the second slash.
pub open spec fn first_segment(p: Seq<char>) -> Seq<char> {
    p.subrange(1, next_at(p, '/', 1))
}

impl Account {
    pub open spec fn is_owner(self) -> bool {
        self.name is None
    }

    /// The live share that holds a store path.
    pub open spec fn holder(self, path: Seq<char>) -> Option<Share> {
        let i = holder_from(self.rows, path, 0);
        if i < self.rows.len() {
            Some(self.rows[i])
        } else {
            None
        }
    }

    /// What a path in this account's namespace names.
    pub open spec fn place(self, view_path: Seq<char>) -> Place {
        let p = plain_path(view_path);
        if self.is_owner() {
            Place::In { store_path: p, rights: Rights::Rw, alias: Seq::empty(), node_id: 0 }
        } else {
            match self.ns {
                Namespace::SingleRoot => if self.rows.len() == 0 {
                    Place::Forbidden { alias: Seq::empty(), why: Denial::Revoked }
                } else {
                    let g = self.rows[0];
                    match g.denial() {
                        Some(why) => Place::Forbidden { alias: Seq::empty(), why },
                        None => Place::In {
                            store_path: if p == "/"@ {
                                g.store_path
                            } else {
                                g.store_path + p
                            },
                            rights: g.rights,
                            alias: Seq::empty(),
                            node_id: g.node_id,
                        },
                    }
                },
                Namespace::Aliased => if p == "/"@ {
                    Place::Root
                } else {
                    let alias = first_segment(p);
                    match named(self.rows, alias) {
                        None => Place::NotFound,
                        Some(g) => match g.denial() {
                            Some(why) => Place::Forbidden { alias, why },
                            None => Place::In {
                                store_path: g.store_path + p.skip(1 + alias.len() as int),
                                rights: g.rights,
                                alias,
                                node_id: g.node_id,
                            },
                        },
                    }
                },
            }
        }
    }

    /// The path this account sees a store path as.
    pub open spec fn seen(self, store_path: Seq<char>) -> Option<Seq<char>> {
        if self.is_owner() {
            Some(store_path)
        } else {
            match self.holder(store_path) {
                None => None,
                Some(g) => {
                    let tail = store_path.skip(g.store_path.len() as int);
                    match self.ns {
                        Namespace::SingleRoot => if tail.len() == 0 {
                            Some("/"@)
                        } else {
                            Some(tail)
                        },
                        Namespace::Aliased => Some("/"@ + g.alias + tail),
                    }
                },
            }
        }
    }

    /// What a path names for an operation that writes.
    pub open spec fn writable(self, view_path: Seq<char>) -> Place {
        match self.place(view_path) {
            Place::In { store_path, rights, alias, node_id } => if rights == Rights::Ro {
                Place::Forbidden { alias, why: Denial::ReadOnly }
            } else {
                Place::In { store_path, rights, alias, node_id }
            },
            other => other,
        }
    }
}

pub open spec fn store_paths(rows: Seq<Share>) -> Seq<Seq<char>> {
    Seq::new(rows.len(), |i: int| rows[i].store_path)
}

proof fn lemma_holder(rows: Seq<Share>, path: Seq<char>, i: int)
    requires
        0 <= i <= rows.len(),
    ensures
        i <= holder_from(rows, path, i) <= rows.len(),
        holder_from(rows, path, i) < rows.len() ==> under(rows[holder_from(rows, path, i)].store_path, path)
            && rows[holder_from(rows, path, i)].is_live(),
        forall|k: int|
            i <= k < holder_from(rows, path, i) ==> !under((#[trigger] rows[k]).store_path, path) || !rows[k].is_live(),
    decreases rows.len() - i,
{
    if i < rows.len() && !(under(rows[i].store_path, path) && rows[i].is_live()) {
        lemma_holder(rows, path, i + 1);
    }
}

fn inside(g: &Grant, tail: &[char], alias: String) -> (r: Resolved)
    ensures
        r@ == (Place::In {
            store_path: g.store_path@ + tail@,
            rights: g.rights,
            alias: alias@,
            node_id: g.node_id,
        }),
{
    let mut p = chars_of(g.store_path.as_str());
    push_chars(&mut p, tail);
    Resolved::In { store_path: string_of(p.as_slice()), rights: g.rights, alias, node_id: g.node_id }
}

impl Clone for AccessView {
    fn clone(&self) -> (r: Self)
        ensures
            r@ == self@,
    {
        AccessView {
            account: match &self.account {
                Some(s) => Some(copied(s.as_str())),
                None => None,
            },
            ns: self.ns,
            grants: self.grants.clone(),
        }
    }
}

impl AccessView {
    /// The owner of the store: no translation, no filtering.
    pub fn admin() -> (r: Self)
        ensures
            r@ == (Account { name: None, ns: Namespace::Aliased, rows: Seq::empty() }),
    {
        AccessView { account: None, ns: Namespace::Aliased, grants: Grants::new() }
    }

    pub fn account(name: &str, ns: Namespace, grants: Grants) -> (r: Self)
        ensures
            r@ == (Account { name: Some(name@), ns, rows: grants@ }),
    {
        AccessView { account: Some(copied(name)), ns, grants }
    }

    pub fn is_admin(&self) -> (r: bool)
        ensures
            r == self@.is_owner(),
    {
        self.account.is_none()
    }

    pub fn name(&self) -> (r: Option<&str>)
        ensures
            match r {
                Some(s) => self@.name == Some(s@),
                None => self@.name is None,
            },
    {
        match &self.account {
            Some(s) => Some(s.as_str()),
            None => None,
        }
    }

    pub fn namespace(&self) -> (r: Namespace)
        ensures
            r == self@.ns,
    {
        self.ns
    }

    pub fn grants(&self) -> (r: &Grants)
        ensures
            r@ == self@.rows,
    {
        &self.grants
    }

    /// Resolve a path as this account wrote it into the store path it names.
    ///
    /// The whole access model is this function and [`AccessView::to_view`]. Everything else —
    /// listings, search, writes, sync — is a caller that asks one of them and obeys the answer.
    ///
    /// A single-root account whose share was revoked has nothing at all, and its whole namespace
    /// is forbidden rather than empty, so that a checkout is left alone rather than emptied.
    pub fn to_store(&self, view_path: &str) -> (r: Resolved)
        ensures
            r@ == self@.place(view_path@),
    {
        let raw = chars_of(view_path);
        let cut = trim_end_char(raw.as_slice(), '/');
        let root = chars_of("/");
        let p: &[char] = if cut.len() == 0 {
            root.as_slice()
        } else {
            cut
        };
        proof {
            reveal_strlit("/");
        }
        assert(p@ == plain_path(view_path@));
        assert(p@.len() > 0);
        let is_root: bool = same_chars(p, root.as_slice());
        if self.is_admin() {
            return Resolved::In { store_path: string_of(p), rights: Rights::Rw, alias: String::new(), node_id: 0 };
        }
        match self.ns {
            Namespace::SingleRoot => {
                if self.grants.len() == 0 {
                    return Resolved::Forbidden { alias: String::new(), why: Denial::Revoked };
                }
                let g = self.grants.at(0);
                match g.denied() {
                    Some(why) => {
                        return Resolved::Forbidden { alias: String::new(), why };
                    },
                    None => {},
                }
                if is_root {
                    let none: Vec<char> = Vec::new();
                    assert(g.store_path@ + none@ =~= g.store_path@);
                    inside(g, none.as_slice(), String::new())
                } else {
                    inside(g, p, String::new())
                }
            },
            Namespace::Aliased => {
                if is_root {
                    return Resolved::Root;
                }
                let i = find_char(p, '/', 1);
                let first = slice_subrange(p, 1, i);
                let alias = string_of(first);
                match self.grants.by_alias(alias.as_str()) {
                    None => Resolved::NotFound,
                    Some(g) => match g.denied() {
                        Some(why) => Resolved::Forbidden { alias, why },
                        None => {
                            let tail = slice_subrange(p, i, p.len());
                            assert(tail@ =~= p@.skip(1 + alias@.len() as int));
                            inside(g, tail, alias)
                        },
                    },
                }
            },
        }
    }

    /// The path this account sees a store path as, or `None` when it sees nothing there.
    ///
    /// The inverse of [`AccessView::to_store`] over the visible set. Used on every row on the way
    /// out, so it is a prefix test against a handful of grants and a string join.
    pub fn to_view(&self, store_path: &str) -> (r: Option<String>)
        ensures
            match r {
                Some(s) => self@.seen(store_path@) == Some(s@),
                None => self@.seen(store_path@) is None,
            },
    {
        if self.is_admin() {
            return Some(copied(store_path));
        }
        let g = match self.grant_for(store_path) {
            Some(g) => g,
            None => {
                return None;
            },
        };
        let p = chars_of(store_path);
        let root = chars_of(g.store_path.as_str());
        assert(under(root@, p@)) by {
            lemma_holder(self@.rows, store_path@, 0);
        }
        let tail = slice_subrange(p.as_slice(), root.len(), p.len());
        assert(tail@ =~= p@.skip(root@.len() as int));
        match self.ns {
            Namespace::SingleRoot => if tail.len() == 0 {
                Some(copied("/"))
            } else {
                Some(string_of(tail))
            },
            Namespace::Aliased => {
                let mut out = chars_of("/");
                let alias = chars_of(g.alias.as_str());
                push_chars(&mut out, alias.as_slice());
                push_chars(&mut out, tail);
                Some(string_of(out.as_slice()))
            },
        }
    }

    /// The live grant whose subtree holds this store path.
    ///
    /// Overlapping grants are refused at grant time, so at most one matches and the first hit is
    /// the answer — no longest-prefix search.
    pub fn grant_for(&self, store_path: &str) -> (r: Option<&Grant>)
        ensures
            match r {
                Some(g) => self@.holder(store_path@) == Some(g@) && g@.is_live() && under(g@.store_path, store_path@),
                None => self@.holder(store_path@) is None && forall|k: int|
                    0 <= k < self@.rows.len() ==> !(under((#[trigger] self@.rows[k]).store_path, store_path@)
                        && self@.rows[k].is_live()),
            },
    {
        let mut i: usize = 0;
        while i < self.grants.len()
            invariant
                i <= self@.rows.len(),
                self@.rows == self.grants@,
                holder_from(self@.rows, store_path@, 0) == holder_from(self@.rows, store_path@, i as int),
            decreases self@.rows.len() - i,
        {
            let g = self.grants.at(i);
            if contains(g.store_path.as_str(), store_path) && g.live() {
                return Some(g);
            }
            i += 1;
        }
        proof {
            lemma_holder(self@.rows, store_path@, 0);
        }
        None
    }

    /// The share whose root this store path *is*, if it is one.
    ///
    /// A share root is a folder the account works inside and does not own: moving or deleting it
    /// is the owner's to do, and the account's alias is its name for the share rather than for
    /// the folder. Writing inside it is ordinary.
    pub fn share_root_of(&self, store_path: &str) -> (r: Option<&Grant>)
        ensures
            match r {
                Some(g) => root_from(self@.rows, store_path@, 0) == Some(g@),
                None => root_from(self@.rows, store_path@, 0) is None,
            },
    {
        let mut i: usize = 0;
        while i < self.grants.len()
            invariant
                i <= self@.rows.len(),
                self@.rows == self.grants@,
                root_from(self@.rows, store_path@, 0) == root_from(self@.rows, store_path@, i as int),
            decreases self@.rows.len() - i,
        {
            let g = self.grants.at(i);
            if same_text(g.store_path.as_str(), store_path) && g.live() {
                return Some(g);
            }
            i += 1;
        }
        None
    }

    /// Can this account see this store path at all?
    pub fn can_see(&self, store_path: &str) -> (r: bool)
        ensures
            r == (self@.seen(store_path@) is Some),
    {
        if self.is_admin() {
            return true;
        }
        match self.grant_for(store_path) {
            Some(_) => true,
            None => false,
        }
    }

    /// Resolve for an operation that writes, so that `ro` is refused here rather than by whatever
    /// the caller would have done next.
    pub fn to_store_rw(&self, view_path: &str) -> (r: Resolved)
        ensures
            r@ == self@.writable(view_path@),
    {
        match self.to_store(view_path) {
            Resolved::In { store_path, rights, alias, node_id } => match rights {
                Rights::Ro => Resolved::Forbidden { alias, why: Denial::ReadOnly },
                Rights::Rw => Resolved::In { store_path, rights, alias, node_id },
            },
            other => other,
        }
    }

    /// The store-path subtrees this account can see, for a query that needs to restrict rows
    /// rather than test one path: the visible set is the union of the live grants' subtrees.
    ///
    /// `None` for the admin, meaning "everything" — a caller adds no predicate at all.
    pub fn visible_roots<'a>(&'a self) -> (r: Option<Vec<&'a str>>)
        ensures
            match r {
                Some(v) => !self@.is_owner() && str_views(v@) == store_paths(live_shares(self@.rows)),
                None => self@.is_owner(),
            },
    {
        if self.is_admin() {
            return None;
        }
        let live = self.grants.live();
        let mut out: Vec<&'a str> = Vec::new();
        let mut i: usize = 0;
        while i < live.len()
            invariant
                i <= live@.len(),
                out@.len() == i,
                forall|k: int| 0 <= k < i ==> (#[trigger] out@[k])@ == live@[k].store_path@,
            decreases live@.len() - i,
        {
            let g: &'a Grant = live[i];
            out.push(g.store_path.as_str());
            i += 1;
        }
        proof {
            let want = store_paths(live_shares(self@.rows));
            assert forall|k: int| 0 <= k < want.len() implies #[trigger] str_views(out@)[k] == want[k] by {
                assert(grant_refs(live@)[k] == live@[k]@);
            }
            assert(grant_refs(live@).len() == live@.len());
            assert(str_views(out@) =~= want);
        }
        Some(out)
    }

    /// Which of this account's subtrees a query under `view_prefix` must cover.
    ///
    /// `ls -R /` or `search` with no prefix is over every share; under an alias it is that one
    /// share's subtree. The point of returning a list is that a caller builds one predicate and
    /// never has to know which case it was.
    pub fn search_roots(&self, view_prefix: &str) -> (r: Result<Vec<String>, Resolved>)
        ensures
            if self@.is_owner() {
                r is Ok && texts(r->Ok_0@) == seq![view_prefix@]
            } else {
                match self@.place(view_prefix@) {
                    Place::Root => r is Ok && texts(r->Ok_0@) == store_paths(live_shares(self@.rows)),
                    Place::In { store_path, .. } => r is Ok && texts(r->Ok_0@) == seq![store_path],
                    other => r is Err && r->Err_0@ == other,
                }
            },
    {
        let mut out: Vec<String> = Vec::new();
        if self.is_admin() {
            out.push(copied(view_prefix));
            assert(texts(out@) =~= seq![view_prefix@]);
            return Ok(out);
        }
        match self.to_store(view_prefix) {
            Resolved::Root => {
                let live = self.grants.live();
                let mut i: usize = 0;
                while i < live.len()
                    invariant
                        i <= live@.len(),
                        out@.len() == i,
                        forall|k: int| 0 <= k < i ==> (#[trigger] out@[k])@ == live@[k].store_path@,
                    decreases live@.len() - i,
                {
                    out.push(copied(live[i].store_path.as_str()));
                    i += 1;
                }
                proof {
                    let want = store_paths(live_shares(self@.rows));
                    assert(grant_refs(live@).len() == live@.len());
                    assert forall|k: int| 0 <= k < want.len() implies #[trigger] texts(out@)[k] == want[k] by {
                        assert(grant_refs(live@)[k] == live@[k]@);
                    }
                    assert(texts(out@) =~= want);
                }
                Ok(out)
            },
            Resolved::In { store_path, rights, alias, node_id } => {
                let ghost s = store_path@;
                out.push(store_path);
                assert(texts(out@) =~= seq![s]);
                Ok(out)
            },
            other => Err(other),
        }
    }
}

pub open spec fn str_views(v: Seq<&str>) -> Seq<Seq<char>> {
    Seq::new(v.len(), |i: int| v[i]@)
}

/// No share holds another.
pub open spec fn disjoint(rows: Seq<Share>) -> bool {
    forall|i: int, j: int|
        0 <= i < rows.len() && 0 <= j < rows.len() && i != j ==> !under(
            (#[trigger] rows[i]).store_path,
            (#[trigger] rows[j]).store_path,
        )
}

/// Of two folders that hold one path, one holds the other.
proof fn lemma_nested(p: Seq<char>, q: Seq<char>, s: Seq<char>)
    requires
        under(p, s),
        under(q, s),
        p.len() <= q.len(),
    ensures
        under(p, q),
{
    assert(q =~= s.take(q.len() as int));
    assert(p =~= s.take(p.len() as int));
    if p.len() < q.len() {
        assert(q.take(p.len() as int) =~= p);
        assert(q[p.len() as int] == s[p.len() as int]);
    }
}

/// A store path is seen through one share at most, so a file has one path in a view. This is
/// what the overlap rule buys.
pub proof fn law_one_holder(rows: Seq<Share>, path: Seq<char>, i: int, j: int)
    requires
        disjoint(rows),
        0 <= i < rows.len(),
        0 <= j < rows.len(),
        under(rows[i].store_path, path),
        under(rows[j].store_path, path),
    ensures
        i == j,
{
    if i != j {
        if rows[i].store_path.len() <= rows[j].store_path.len() {
            lemma_nested(rows[i].store_path, rows[j].store_path, path);
        } else {
            lemma_nested(rows[j].store_path, rows[i].store_path, path);
        }
    }
}

proof fn lemma_rows_refusal(rows: Seq<Share>, k: int, path: Seq<char>, i: int)
    requires
        rows_refusal(rows, k, path, i) is None,
        0 <= i <= rows.len(),
    ensures
        forall|j: int|
            i <= j < rows.len() && j != k ==> !under((#[trigger] rows[j]).store_path, path) && !under(
                path,
                rows[j].store_path,
            ),
    decreases rows.len() - i,
{
    if i < rows.len() {
        lemma_rows_refusal(rows, k, path, i + 1);
    }
}

/// Shares never come to overlap by being added.
pub proof fn law_add_keeps_shares_apart(rows: Seq<Share>, q: Request)
    requires
        by_alias_order(rows),
        disjoint(rows),
        q.refusal(rows) is None,
    ensures
        disjoint(put(rows, q.share(rows))),
        by_alias_order(put(rows, q.share(rows))),
{
    let g = q.share(rows);
    let k = kin(rows, q.node_id);
    let out = put(rows, g);
    lemma_kin(rows, q.node_id);
    lemma_put(rows, g);
    lemma_slot(rows, g.alias);
    lemma_rows_refusal(rows, k, q.path(), 0);
    let s = slot(rows, g.alias);
    if k < rows.len() {
        lemma_named(rows, k);
        assert(s == k);
    } else if s < rows.len() && rows[s].alias == g.alias {
        // The alias would be that of another node, which is refused.
        assert(named(rows, g.alias) == Some(rows[s]));
        if q.ns == Namespace::Aliased {
            assert(q.alias_held(rows));
        }
    }
    assert forall|i: int, j: int| 0 <= i < out.len() && 0 <= j < out.len() && i != j implies !under(
        (#[trigger] out[i]).store_path,
        (#[trigger] out[j]).store_path,
    ) by {
        let found = s < rows.len() && rows[s].alias == g.alias;
        let i0 = if found || i < s { i } else { i - 1 };
        let j0 = if found || j < s { j } else { j - 1 };
        if i == s {
            assert(out[j] == rows[j0]);
        } else if j == s {
            assert(out[i] == rows[i0]);
        } else {
            assert(out[i] == rows[i0] && out[j] == rows[j0]);
        }
    }
}

proof fn lemma_next_in(s: Seq<char>, c: char, i: int, j: int)
    requires
        0 <= i <= j <= s.len(),
        forall|k: int| i <= k < j ==> s[k] != c,
        j == s.len() || s[j] == c,
    ensures
        next_at(s, c, i) == j,
    decreases j - i,
{
    if i < j {
        lemma_next_in(s, c, i + 1, j);
    }
}

/// Every store path an account can see round-trips: the path it is seen as names it, with the
/// rights of its share.
pub proof fn law_to_view_inverts(a: Account, store_path: Seq<char>)
    requires
        !a.is_owner(),
        by_alias_order(a.rows),
        a.seen(store_path) is Some,
        store_path.len() > 0 && store_path.last() != '/',
        a.ns == Namespace::Aliased ==> alias_fault((a.holder(store_path)->0).alias) is None,
        a.ns == Namespace::SingleRoot ==> a.rows.len() == 1,
    ensures
        ({
            let g = a.holder(store_path)->0;
            a.place(a.seen(store_path)->0) == (Place::In {
                store_path,
                rights: g.rights,
                alias: if a.ns == Namespace::SingleRoot { Seq::empty() } else { g.alias },
                node_id: g.node_id,
            })
        }),
{
    reveal_strlit("/");
    let i = holder_from(a.rows, store_path, 0);
    lemma_holder(a.rows, store_path, 0);
    let g = a.rows[i];
    let n = g.store_path.len() as int;
    let tail = store_path.skip(n);
    assert(g.store_path =~= store_path.take(n));
    assert(g.store_path + tail =~= store_path);
    let w = a.seen(store_path)->0;
    match a.ns {
        Namespace::SingleRoot => {
            if tail.len() == 0 {
                reveal_with_fuel(trim_end, 2);
                assert("/"@.drop_last() =~= Seq::<char>::empty());
            } else {
                assert(tail.last() == store_path.last());
                assert(tail[0] == store_path[n]);
                assert(plain_path(w) == w);
                if w == "/"@ {
                    assert(w.last() == '/');
                }
            }
        },
        Namespace::Aliased => {
            let m = g.alias.len() as int;
            assert(w[0] == '/');
            assert(w.subrange(1, 1 + m) =~= g.alias);
            assert(w.skip(1 + m) =~= tail);
            if tail.len() == 0 {
                assert(w.last() == g.alias.last());
                assert(g.alias.contains(g.alias.last()));
            } else {
                assert(w.last() == tail.last());
                assert(tail.last() == store_path.last());
                assert(tail[0] == store_path[n]);
                assert(w[1 + m] == tail[0]);
            }
            assert(plain_path(w) == w);
            assert forall|k: int| 1 <= k < 1 + m implies w[k] != '/' by {
                assert(w[k] == g.alias[k - 1]);
                assert(g.alias.contains(g.alias[k - 1]));
            }
            lemma_next_in(w, '/', 1, 1 + m);
            lemma_named(a.rows, i);
        },
    }
}

/// What no live share holds is not seen, and nothing else is hidden. A path whose first segment is no alias of the account
/// is not found, whether or not the store has it.
pub proof fn law_nothing_outside(a: Account, path: Seq<char>)
    requires
        !a.is_owner(),
    ensures
        (forall|i: int|
            0 <= i < a.rows.len() ==> !under((#[trigger] a.rows[i]).store_path, path) || !a.rows[i].is_live())
            <==> a.seen(path) is None,
        a.ns == Namespace::Aliased && plain_path(path) != "/"@ && named(a.rows, first_segment(plain_path(path))) is None
            ==> a.place(path) == Place::NotFound,
{
    lemma_holder(a.rows, path, 0);
}

/// A write is never let through on a read-only share.
pub proof fn law_writable_is_rw(a: Account, path: Seq<char>)
    ensures
        a.writable(path) matches Place::In { rights, .. } ==> rights == Rights::Rw,
        a.writable(path) matches Place::In { .. } ==> a.writable(path) == a.place(path),
{
}


/// Grants follow the node: when the owner moves a shared folder, what is below it is seen under the
/// paths it was seen under before.
pub proof fn law_moved_share_keeps_paths(a: Account, i: int, to: Seq<char>, tail: Seq<char>)
    requires
        !a.is_owner(),
        0 <= i < a.rows.len(),
        under(a.rows[i].store_path, a.rows[i].store_path + tail),
        under(to, to + tail),
        disjoint(a.rows),
        disjoint(a.rows.update(i, (Share { store_path: to, ..a.rows[i] }))),
    ensures
        ({
            let b = Account { rows: a.rows.update(i, Share { store_path: to, ..a.rows[i] }), ..a };
            b.seen(to + tail) == a.seen(a.rows[i].store_path + tail)
        }),
{
    let g = a.rows[i];
    let b = Account { rows: a.rows.update(i, Share { store_path: to, ..g }), ..a };
    assert((g.store_path + tail).skip(g.store_path.len() as int) =~= tail);
    assert((to + tail).skip(to.len() as int) =~= tail);
    assert(b.rows[i] == (Share { store_path: to, ..g }));
    let p = g.store_path + tail;
    lemma_holder(a.rows, p, 0);
    lemma_holder(b.rows, to + tail, 0);
    let j = holder_from(a.rows, p, 0);
    let k = holder_from(b.rows, to + tail, 0);
    if j < a.rows.len() {
        law_one_holder(a.rows, p, i, j);
    }
    if k < b.rows.len() {
        law_one_holder(b.rows, to + tail, i, k);
    }
}

/// A share that is added leaves every path the account sees as it was: the alias level is there
/// from the first share on.
pub proof fn law_added_share_keeps_paths(a: Account, g: Share, path: Seq<char>)
    requires
        a.ns == Namespace::Aliased,
        named(a.rows, g.alias) is None,
        a.seen(path) is Some,
        !under(g.store_path, path),
    ensures
        (Account { rows: put(a.rows, g), ..a }).seen(path) == a.seen(path),
{
    let rows = a.rows;
    let k = slot(rows, g.alias);
    let more = put(rows, g);
    lemma_slot_inside(rows, g.alias);
    lemma_holder(rows, path, 0);
    lemma_holder(more, path, 0);
    assert(more == rows.insert(k, g));
    let i = holder_from(rows, path, 0);
    let j = holder_from(more, path, 0);
    if !a.is_owner() {
        assert(a.holder(path) is Some);
        assert(i < rows.len());
        let there = if i < k {
            i
        } else {
            i + 1
        };
        assert(more[there] == rows[i]);
        assert(j <= there);
        if j < there {
            if j < k {
                assert(more[j] == rows[j]);
            } else if j > k {
                assert(more[j] == rows[j - 1]);
            }
        }
        assert(j == there);
    }
}

proof fn lemma_slot_inside(rows: Seq<Share>, alias: Seq<char>)
    ensures
        0 <= slot(rows, alias) <= rows.len(),
    decreases rows.len(),
{
    if rows.len() > 0 {
        lemma_slot_inside(rows.skip(1), alias);
    }
}

/// The word rights are written with names them.
pub proof fn law_rights_round_trip(r: Rights)
    ensures
        rights_named(r.spelled()) == Some(r),
{
    reveal_strlit("ro");
    reveal_strlit("rw");
    assert("ro"@[1] == 'o');
    assert("rw"@[1] == 'w');
}

} // verus!
