//! Accounts, tokens and shares: what may be asked for, and what is told about it. The rules of
//! shares are those of [`crate::access`]; these are about how they are asked for.

use vstd::prelude::*;
use vstd::string::*;
use crate::access::{contains, kin, put, under, Grant, Grants, Namespace, Request, Rights, Share};
use crate::chars::{has_char, past_last, same_chars, trim_both_white, trim_white};
use crate::error::TextdbError;
use crate::hash::{hex_bytes, hex_of};
use crate::pg::bulk::{absent, refused};
use crate::pg::sql::asked_text;
use crate::pg::store::{name_of, NodeRow};
use crate::storage::Result;
use crate::text::{chars_of, same_text};

verus! {

/// `rand::random` for 32 bytes. Nothing is promised of what they are.
#[verifier::external_body]
fn random_bytes() -> (r: [u8; 32]) {
    rand::random()
}

/// A bearer: the mark it is recognised by in a log or an environment variable, and its bytes in
/// hexadecimal.
pub open spec fn bearer_text(b: Seq<u8>) -> Seq<char> {
    "tdb_"@ + hex_of(b)
}

/// The bearer made of some bytes.
pub fn bearer_of(b: &[u8]) -> (r: String)
    ensures
        r@ == bearer_text(b@),
{
    String::from_str("tdb_").concat(hex_bytes(b).as_str())
}

/// A bearer of 32 random bytes.
pub fn new_bearer() -> (r: String)
    ensures
        exists|b: [u8; 32]| r@ == #[trigger] bearer_text(b@),
{
    let b = random_bytes();
    bearer_of(b.as_slice())
}

/// What an account may not do, if it may not: only the owner of the store runs the delegation
/// commands.
pub fn owner_only(account: Option<i64>, what: &str) -> (r: Option<String>)
    ensures
        match r {
            Some(m) => account is Some && m@ == "only the owner of the store can "@ + what@,
            None => account is None,
        },
{
    match account {
        Some(_) => Some(String::from_str("only the owner of the store can ").concat(what)),
        None => None,
    }
}

/// Can a text be the name of an account?
pub open spec fn account_name(name: Seq<char>) -> bool {
    name.len() > 0 && !name.contains('/') && trim_white(name) == name
}

/// Why an account cannot be made, if so.
pub open spec fn account_fault(name: Seq<char>, kind: Seq<char>, taken: bool) -> Option<Seq<char>> {
    if !account_name(name) {
        Some("'"@ + name + "' cannot be an account name"@)
    } else if kind != "agent"@ && kind != "person"@ {
        Some("account kind is 'agent' or 'person', not '"@ + kind + "'"@)
    } else if taken {
        Some("there is already an account called '"@ + name + "'"@)
    } else {
        None
    }
}

/// Can an account be made? `taken` says whether there is one of that name.
pub fn check_account(name: &str, kind: &str, taken: bool) -> (r: Result<()>)
    ensures
        match account_fault(name@, kind@, taken) {
            Some(m) => refused(r, m),
            None => r is Ok,
        },
{
    let cs: Vec<char> = chars_of(name);
    let mut m = String::new();
    if cs.len() == 0 || has_char(cs.as_slice(), '/') || !same_chars(trim_both_white(cs.as_slice()), cs.as_slice()) {
        m.append("'");
        m.append(name);
        m.append("' cannot be an account name");
    } else if !same_text(kind, "agent") && !same_text(kind, "person") {
        m.append("account kind is 'agent' or 'person', not '");
        m.append(kind);
        m.append("'");
    } else if taken {
        m.append("there is already an account called '");
        m.append(name);
        m.append("'");
    } else {
        return Ok(());
    }
    proof {
        assert(m@ =~= account_fault(name@, kind@, taken)->0);
    }
    Err(TextdbError::InvalidEdit(m))
}

/// The alias a single-root account's share gets when it is converted: the one given, or the name
/// of its folder.
pub open spec fn converted_name(alias: Option<Seq<char>>, g: Share) -> Seq<char> {
    match alias {
        Some(a) => a,
        None => g.store_path.skip(past_last(g.store_path, '/')),
    }
}

/// The alias of the share of an account that is no longer to hold it at its root.
pub fn converted_alias(name: &str, single_root: bool, grants: &Grants, alias: Option<&str>) -> (r: Result<String>)
    ensures
        !single_root ==> refused(r, "'"@ + name@ + "' already holds its shares under aliases"@),
        single_root && grants@.len() == 0 ==> refused(r, "'"@ + name@ + "' has no share to convert"@),
        single_root && grants@.len() > 0 ==> (r matches Ok(a) && a@ == converted_name(asked_text(alias), grants@[0])),
{
    let mut m = String::from_str("'");
    m.append(name);
    if !single_root {
        m.append("' already holds its shares under aliases");
        return Err(TextdbError::InvalidEdit(m));
    }
    if grants.len() == 0 {
        m.append("' has no share to convert");
        return Err(TextdbError::InvalidEdit(m));
    }
    match alias {
        Some(a) => Ok(String::from_str(a)),
        None => Ok(String::from_str(name_of(grants.at(0).store_path.as_str()))),
    }
}

/// The rights a word asks for.
pub fn parse_rights(s: &str) -> (r: Result<Rights>)
    ensures
        s@ == "ro"@ ==> r == Ok::<Rights, TextdbError>(Rights::Ro),
        s@ == "rw"@ ==> r == Ok::<Rights, TextdbError>(Rights::Rw),
        s@ != "ro"@ && s@ != "rw"@ ==> refused(r, "rights are 'ro' or 'rw', not '"@ + s@ + "'"@),
{
    proof {
        reveal_strlit("ro");
        reveal_strlit("rw");
        assert("ro"@[1] == 'o');
        assert("rw"@[1] == 'w');
    }
    if same_text(s, "ro") {
        Ok(Rights::Ro)
    } else if same_text(s, "rw") {
        Ok(Rights::Rw)
    } else {
        let mut m = String::from_str("rights are 'ro' or 'rw', not '");
        m.append(s);
        m.append("'");
        Err(TextdbError::InvalidEdit(m))
    }
}

/// The node a share binds to. A share is a folder: sharing a file would be a different model.
pub fn share_node(path: &str, node: Option<&NodeRow>) -> (r: Result<i64>)
    ensures
        node matches Some(n) && n.kind == 0 ==> r == Ok::<i64, TextdbError>((node->0).id),
        node matches Some(n) && n.kind != 0 ==> refused(
            r,
            path@ + " is a file; a share is a folder and everything below it"@,
        ),
        node is None ==> absent(r, path@),
{
    match node {
        Some(n) => if n.kind == 0 {
            Ok(n.id)
        } else {
            Err(
                TextdbError::InvalidEdit(
                    String::from_str(path).concat(" is a file; a share is a folder and everything below it"),
                ),
            )
        },
        None => Err(TextdbError::NotFound(String::from_str(path))),
    }
}

/// The account holds the node already, under the alias asked for if one is.
pub open spec fn held_as_asked(rows: Seq<Share>, q: Request) -> bool {
    let k = kin(rows, q.node_id);
    k < rows.len() && (q.alias is None || q.alias == Some(rows[k].alias))
}

/// Grant a share. Regranting a node replaces its rights rather than being refused as a duplicate:
/// that is what "raise this share to rw" has to mean.
pub fn grant_share(
    grants: &mut Grants,
    ns: Namespace,
    node_id: i64,
    store_path: &str,
    alias: Option<&str>,
    rights: Rights,
) -> (r: Result<Grant>)
    requires
        old(grants).ok(),
    ensures
        final(grants).ok(),
        ({
            let q = Request { ns, node_id, store_path: store_path@, alias: asked_text(alias), rights };
            let rows = old(grants)@;
            if held_as_asked(rows, q) {
                &&& r matches Ok(g) && g@ == (Share { rights, ..rows[kin(rows, node_id)] })
                &&& final(grants)@ == rows
            } else {
                match q.refusal(rows) {
                    Some(e) => refused(r, e.sentence()) && final(grants)@ == rows,
                    None => (r matches Ok(g) && g@ == q.share(rows)) && final(grants)@ == put(rows, q.share(rows)),
                }
            }
        }),
{
    let ghost q = Request { ns, node_id, store_path: store_path@, alias: asked_text(alias), rights };
    let existing: Option<Grant> = match grants.by_node(node_id) {
        Some(g) => Some(g.clone()),
        None => None,
    };
    match existing {
        Some(g) => {
            let same: bool = match alias {
                None => true,
                Some(a) => same_text(a, g.alias.as_str()),
            };
            if same {
                return Ok(
                    Grant {
                        node_id: g.node_id,
                        alias: g.alias,
                        store_path: g.store_path,
                        rights,
                        dormant: g.dormant,
                        revoked: g.revoked,
                    },
                );
            }
        },
        None => {},
    }
    assert(!held_as_asked(grants@, q));
    match grants.add(ns, node_id, store_path, alias, rights) {
        Ok(g) => Ok(g),
        Err(e) => Err(TextdbError::InvalidEdit(e.message())),
    }
}

/// Is a share what someone asks about? A path answers "who can see this?", an account name "what
/// does this account see?". Which was meant is decided by the shape of the argument.
pub open spec fn asked_about(account: Seq<char>, store_path: Seq<char>, who: Option<Seq<char>>) -> bool {
    match who {
        None => true,
        Some(w) => if w.len() > 0 && w[0] == '/' {
            under(store_path, w) || under(w, store_path)
        } else {
            account == w
        },
    }
}

/// Is a share what someone asks about?
pub fn is_asked_about(account: &str, store_path: &str, who: Option<&str>) -> (r: bool)
    ensures
        r == asked_about(account@, store_path@, asked_text(who)),
{
    match who {
        None => true,
        Some(w) => {
            let cs: Vec<char> = chars_of(w);
            if cs.len() > 0 && cs[0] == '/' {
                contains(store_path, w) || contains(w, store_path)
            } else {
                same_text(account, w)
            }
        },
    }
}

/// An account as its row tells it.
#[derive(Debug, PartialEq, Eq)]
pub struct Account {
    pub name: String,
    pub kind: String,
    pub single_root: bool,
}

/// A share as its holder is told of it.
#[derive(Debug, PartialEq, Eq)]
pub struct HeldShare {
    pub alias: String,
    pub rights: &'static str,
    pub node_id: i64,
    pub dormant: bool,
}

/// Who a connection is, and one of the shares it holds.
#[derive(Debug, PartialEq, Eq)]
pub struct WhoRow {
    pub account: Option<String>,
    pub admin: bool,
    pub kind: String,
    pub namespace: &'static str,
    pub share: Option<HeldShare>,
}

/// A held share as a mathematical value.
pub struct Holding {
    pub alias: Seq<char>,
    pub rights: Seq<char>,
    pub node_id: i64,
    pub dormant: bool,
}

/// Who a connection is, as a mathematical value.
pub struct Who {
    pub account: Option<Seq<char>>,
    pub admin: bool,
    pub kind: Seq<char>,
    pub namespace: Seq<char>,
    pub share: Option<Holding>,
}

impl View for WhoRow {
    type V = Who;

    open spec fn view(&self) -> Who {
        Who {
            account: match self.account {
                Some(s) => Some(s@),
                None => None,
            },
            admin: self.admin,
            kind: self.kind@,
            namespace: self.namespace@,
            share: match self.share {
                Some(s) => Some(
                    Holding { alias: s.alias@, rights: s.rights@, node_id: s.node_id, dormant: s.dormant },
                ),
                None => None,
            },
        }
    }
}

/// What an account is told, for one of its shares or for none. It is never told where its shares
/// live in the store: the alias exists to hide exactly that.
pub open spec fn account_row(a: Account, g: Option<Share>) -> Who {
    Who {
        account: Some(a.name@),
        admin: false,
        kind: a.kind@,
        namespace: if a.single_root {
            "single-root"@
        } else {
            "aliased"@
        },
        share: match g {
            Some(g) => Some(
                Holding { alias: g.alias, rights: g.rights.spelled(), node_id: g.node_id, dormant: g.dormant },
            ),
            None => None,
        },
    }
}

/// What the owner is told.
pub open spec fn owner_row() -> Who {
    Who { account: None, admin: true, kind: "owner"@, namespace: "store"@, share: None }
}

/// What a connection is told about itself: one row for each share of an account, one without a
/// share if it has none, and one row for the owner.
pub fn who_rows(account: Option<&Account>, grants: &Grants) -> (out: Vec<WhoRow>)
    ensures
        account is None ==> out@.len() == 1 && out@[0]@ == owner_row(),
        account matches Some(a) && grants@.len() == 0 ==> out@.len() == 1 && out@[0]@ == account_row(*(account->0), None),
        account matches Some(a) && grants@.len() > 0 ==> out@.len() == grants@.len() && forall|i: int|
            0 <= i < out@.len() ==> (#[trigger] out@[i])@ == account_row(*(account->0), Some(grants@[i])),
{
    let mut out: Vec<WhoRow> = Vec::new();
    match account {
        None => {
            out.push(
                WhoRow {
                    account: None,
                    admin: true,
                    kind: String::from_str("owner"),
                    namespace: "store",
                    share: None,
                },
            );
        },
        Some(a) => {
            let namespace: &'static str = if a.single_root {
                "single-root"
            } else {
                "aliased"
            };
            if grants.len() == 0 {
                out.push(
                    WhoRow {
                        account: Some(a.name.clone()),
                        admin: false,
                        kind: a.kind.clone(),
                        namespace,
                        share: None,
                    },
                );
            }
            let mut i: usize = 0;
            while i < grants.len()
                invariant
                    i <= grants@.len(),
                    grants@.len() > 0 ==> out@.len() == i,
                    grants@.len() == 0 ==> out@.len() == 1 && out@[0]@ == account_row(*a, None),
                    namespace@ == (if a.single_root { "single-root"@ } else { "aliased"@ }),
                    grants@.len() > 0 ==> forall|k: int|
                        0 <= k < i ==> (#[trigger] out@[k])@ == account_row(*a, Some(grants@[k])),
                decreases grants@.len() - i,
            {
                let g = grants.at(i);
                out.push(
                    WhoRow {
                        account: Some(a.name.clone()),
                        admin: false,
                        kind: a.kind.clone(),
                        namespace,
                        share: Some(
                            HeldShare {
                                alias: g.alias.clone(),
                                rights: g.rights.as_str(),
                                node_id: g.node_id,
                                dormant: g.dormant,
                            },
                        ),
                    },
                );
                i += 1;
            }
        },
    }
    out
}

} // verus!
