use textdb::access::{contains, AccessView, Denial, GrantError, Grants, Namespace, Resolved, Rights};

fn fixture() -> AccessView {
    let mut g = Grants::new();
    g.add(Namespace::Aliased, 1, "/legal/contracts", Some("contracts"), Rights::Rw).unwrap();
    g.add(Namespace::Aliased, 2, "/products", None, Rights::Ro).unwrap();
    AccessView::account("accounts-agent", Namespace::Aliased, g)
}

fn single_root() -> AccessView {
    let mut g = Grants::new();
    g.add(Namespace::SingleRoot, 1, "/legal/contracts", None, Rights::Rw).unwrap();
    AccessView::account("contracts-agent", Namespace::SingleRoot, g)
}

#[test]
fn an_alias_is_a_prefix_swap() {
    let v = fixture();
    assert_eq!(v.to_view("/legal/contracts/acme.md").as_deref(), Some("/contracts/acme.md"));
    assert_eq!(v.to_view("/legal/contracts/2026/q3.md").as_deref(), Some("/contracts/2026/q3.md"));
    assert_eq!(v.to_view("/products/catalog/x.md").as_deref(), Some("/products/catalog/x.md"));
    // Nothing else is visible, and the share's own ancestors least of all.
    assert_eq!(v.to_view("/hr/salaries.md"), None);
    assert_eq!(v.to_view("/legal/policies/nda.md"), None);
    assert_eq!(v.to_view("/legal"), None);
}

#[test]
fn a_view_path_round_trips() {
    let v = fixture();
    for p in ["/contracts", "/contracts/acme.md", "/contracts/2026/q3.md", "/products/catalog/x.md"] {
        let store = match v.to_store(p) {
            Resolved::In { store_path, .. } => store_path,
            other => panic!("{p}: {other:?}"),
        };
        assert_eq!(v.to_view(&store).as_deref(), Some(p), "{p} -> {store} -> ?");
    }
}

#[test]
fn a_store_path_is_not_a_view_path() {
    let v = fixture();
    // The account's own view has no /legal, so quoting a store path finds nothing — and says
    // exactly what it says for a folder that never existed.
    assert_eq!(v.to_store("/legal/contracts/acme.md"), Resolved::NotFound);
    assert_eq!(v.to_store("/nowhere/at/all"), Resolved::NotFound);
    assert_eq!(v.to_store("/hr"), Resolved::NotFound);
}

#[test]
fn the_root_is_the_list_of_shares_and_not_a_folder() {
    assert_eq!(fixture().to_store("/"), Resolved::Root);
    // A single-root account's root is its share, so it is a folder like any other.
    assert!(matches!(single_root().to_store("/"), Resolved::In { .. }));
}

#[test]
fn a_single_root_account_sees_the_share_at_its_root() {
    let v = single_root();
    assert_eq!(v.to_view("/legal/contracts/acme.md").as_deref(), Some("/acme.md"));
    assert_eq!(v.to_view("/legal/contracts").as_deref(), Some("/"));
    assert_eq!(v.to_view("/legal/policies/nda.md"), None);
    match v.to_store("/2026/q3.md") {
        Resolved::In { store_path, .. } => assert_eq!(store_path, "/legal/contracts/2026/q3.md"),
        other => panic!("{other:?}"),
    }
}

#[test]
fn rights_are_per_share() {
    let v = fixture();
    assert!(matches!(v.to_store_rw("/contracts/acme.md"), Resolved::In { rights: Rights::Rw, .. }));
    assert_eq!(
        v.to_store_rw("/products/roadmap.md"),
        Resolved::Forbidden { alias: "products".into(), why: Denial::ReadOnly }
    );
    // Reading it is fine.
    assert!(matches!(v.to_store("/products/roadmap.md"), Resolved::In { rights: Rights::Ro, .. }));
}

#[test]
fn a_dormant_share_is_forbidden_rather_than_absent() {
    let mut g = Grants::new();
    g.add(Namespace::Aliased, 1, "/legal/contracts", None, Rights::Rw).unwrap();
    let grants = Grants::from_rows(g.iter().cloned().map(|mut g| {
        g.dormant = true;
        g
    }).collect());
    assert_eq!(grants.len(), 1);
    let v = AccessView::account("a", Namespace::Aliased, grants.clone());
    assert_eq!(
        v.to_store("/contracts/acme.md"),
        Resolved::Forbidden { alias: "contracts".into(), why: Denial::Dormant }
    );
    // And it is not listed at the root, though it is still a grant.
    assert_eq!(v.grants().live().len(), 0);
    // Revoking is the same answer for the same reason: the account may still have those
    // files on disk, so it is told it may not have them, never that they are not there.
    let mut revoked = Grants::from_rows(g.iter().cloned().map(|mut g| {
        g.revoked = true;
        g
    }).collect());
    assert_eq!(
        AccessView::account("a", Namespace::Aliased, revoked.clone()).to_store("/contracts/acme.md"),
        Resolved::Forbidden { alias: "contracts".into(), why: Denial::Revoked }
    );
    // Dropping the row outright — which nothing does — is the only way to get not-found.
    revoked.revoke("contracts");
    assert_eq!(AccessView::account("a", Namespace::Aliased, revoked).to_store("/contracts/acme.md"), Resolved::NotFound);
}

#[test]
fn a_revoked_share_keeps_its_alias_reserved() {
    let mut g = Grants::new();
    g.add(Namespace::Aliased, 1, "/legal/contracts", None, Rights::Rw).unwrap();
    let mut g = Grants::from_rows(g.iter().cloned().map(|mut g| {
        g.revoked = true;
        g
    }).collect());
    // Handing the same name to a different folder would make the account's next sync write
    // one share's content over the other's, on a disk that still holds the first.
    let e = g.add(Namespace::Aliased, 2, "/vendor/contracts", Some("contracts"), Rights::Ro).unwrap_err();
    assert!(matches!(e, GrantError::AliasTaken { .. }), "{e:?}");
    // Granting the same folder again is how it comes back.
    let back = g.add(Namespace::Aliased, 1, "/legal/contracts", Some("contracts"), Rights::Ro).unwrap();
    assert!(back.live());
    assert_eq!(back.rights, Rights::Ro);
}

#[test]
fn an_alias_collision_is_refused_rather_than_suffixed() {
    let mut g = Grants::new();
    g.add(Namespace::Aliased, 1, "/legal/contracts", None, Rights::Rw).unwrap();
    let e = g.add(Namespace::Aliased, 2, "/vendor/contracts", None, Rights::Ro).unwrap_err();
    assert_eq!(e, GrantError::AliasTaken { alias: "contracts".into(), held_by: "/legal/contracts".into() });
    // With an explicit alias it goes through, and the first share has not moved.
    g.add(Namespace::Aliased, 2, "/vendor/contracts", Some("vendor-contracts"), Rights::Ro).unwrap();
    assert_eq!(g.len(), 2);
    assert_eq!(g.by_alias("contracts").unwrap().store_path, "/legal/contracts");
}

#[test]
fn overlapping_grants_are_refused_in_either_order() {
    for (first, second) in [("/legal", "/legal/contracts"), ("/legal/contracts", "/legal")] {
        let mut g = Grants::new();
        g.add(Namespace::Aliased, 1, first, Some("a"), Rights::Rw).unwrap();
        let e = g.add(Namespace::Aliased, 2, second, Some("b"), Rights::Ro).unwrap_err();
        assert!(matches!(e, GrantError::Overlaps { .. }), "{first} then {second}: {e:?}");
    }
    // A sibling is not an overlap, and neither is a name that merely shares a prefix.
    let mut g = Grants::new();
    g.add(Namespace::Aliased, 1, "/legal/contracts", Some("a"), Rights::Rw).unwrap();
    g.add(Namespace::Aliased, 2, "/legal/contracts-2026", Some("b"), Rights::Ro).unwrap();
    assert_eq!(g.len(), 2);
}

#[test]
fn a_single_root_account_holds_one_share() {
    let mut g = Grants::new();
    g.add(Namespace::SingleRoot, 1, "/legal/contracts", None, Rights::Rw).unwrap();
    let e = g.add(Namespace::SingleRoot, 2, "/products", None, Rights::Ro).unwrap_err();
    assert_eq!(e, GrantError::SingleRoot { root: "/legal/contracts".into() });
}

#[test]
fn the_store_root_cannot_be_a_share() {
    let mut g = Grants::new();
    assert!(matches!(g.add(Namespace::Aliased, 1, "/", None, Rights::Rw), Err(GrantError::BadRoot { .. })));
}

#[test]
fn renaming_an_alias_moves_the_share_and_keeps_the_node() {
    let mut g = Grants::new();
    g.add(Namespace::Aliased, 1, "/legal/contracts", None, Rights::Rw).unwrap();
    let moved = g.rename("contracts", "legal-contracts").unwrap();
    assert_eq!((moved.node_id, moved.store_path.as_str()), (1, "/legal/contracts"));
    let v = AccessView::account("a", Namespace::Aliased, g);
    assert_eq!(v.to_view("/legal/contracts/acme.md").as_deref(), Some("/legal-contracts/acme.md"));
    assert_eq!(v.to_store("/contracts/acme.md"), Resolved::NotFound);
}

#[test]
fn an_alias_that_is_also_a_folder_name_below_the_share_is_not_ambiguous() {
    // The alias is always the first segment, so /contracts/contracts/x is the
    // nested folder and there is no special case.
    let mut g = Grants::new();
    g.add(Namespace::Aliased, 1, "/legal/contracts", None, Rights::Rw).unwrap();
    let v = AccessView::account("a", Namespace::Aliased, g);
    match v.to_store("/contracts/contracts/x.md") {
        Resolved::In { store_path, .. } => assert_eq!(store_path, "/legal/contracts/contracts/x.md"),
        other => panic!("{other:?}"),
    }
    assert_eq!(v.to_view("/legal/contracts/contracts/x.md").as_deref(), Some("/contracts/contracts/x.md"));
}

#[test]
fn admin_translates_nothing() {
    let v = AccessView::admin();
    assert_eq!(v.to_view("/hr/salaries.md").as_deref(), Some("/hr/salaries.md"));
    assert!(v.can_see("/anything"));
    assert!(v.visible_roots().is_none());
    assert!(matches!(v.to_store_rw("/hr/salaries.md"), Resolved::In { rights: Rights::Rw, .. }));
}

#[test]
fn search_roots_cover_the_whole_view_or_one_share() {
    let v = fixture();
    assert_eq!(v.search_roots("/").unwrap(), vec!["/legal/contracts".to_string(), "/products".to_string()]);
    assert_eq!(v.search_roots("/products/catalog").unwrap(), vec!["/products/catalog".to_string()]);
    assert!(matches!(v.search_roots("/hr"), Err(Resolved::NotFound)));
    // The admin's prefix is its own, untouched.
    assert_eq!(AccessView::admin().search_roots("/hr").unwrap(), vec!["/hr".to_string()]);
}

#[test]
fn contains_is_a_subtree_test_and_not_a_string_prefix() {
    assert!(contains("/legal", "/legal"));
    assert!(contains("/legal", "/legal/contracts"));
    assert!(!contains("/legal", "/legality"));
    assert!(!contains("/legal/contracts", "/legal"));
}


/// A view with up to four shares at varying depths, built through `add` so it obeys every rule.
fn any_view(seed: u64) -> AccessView {
    let mut g = Grants::new();
    let mut x = seed;
    for i in 0..(1 + seed % 4) {
        x = textdb::chunker::splitmix64(x);
        let a = word(x);
        let b = word(x >> 20);
        let rights = if x & 1 == 1 { Rights::Rw } else { Rights::Ro };
        let path = format!("/{a}{i}/{b}");
        let _ = g.add(Namespace::Aliased, i as i64 + 1, &path, Some(&format!("{a}{i}")), rights);
    }
    AccessView::account("a", Namespace::Aliased, g)
}

fn word(x: u64) -> String {
    (0..1 + x % 4).map(|k| (b'a' + ((x >> (4 * k)) % 26) as u8) as char).collect()
}

fn tail(seed: u64, most: u64) -> Vec<String> {
    (0..seed % (most + 1)).map(|k| word(textdb::chunker::splitmix64(seed * 7 + k))).collect()
}

#[test]
fn to_view_inverts_to_store() {
    for seed in 0..200 {
        let v = any_view(seed);
        let tail = tail(seed, 3);
        for g in v.grants().iter() {
            let store = if tail.is_empty() { g.store_path.clone() } else { format!("{}/{}", g.store_path, tail.join("/")) };
            let view = v.to_view(&store).expect("visible");
            match v.to_store(&view) {
                Resolved::In { store_path, rights, .. } => {
                    assert_eq!(store_path, store);
                    assert_eq!(rights, g.rights);
                }
                other => panic!("{other:?} for {view}"),
            }
        }
    }
}

#[test]
fn a_store_path_has_at_most_one_view_path() {
    for seed in 0..200 {
        let v = any_view(seed);
        let tail = tail(seed, 2);
        for g in v.grants().iter() {
            let store = format!("{}/{}", g.store_path, tail.join("/"));
            let hits = v.grants().iter().filter(|o| contains(&o.store_path, &store)).count();
            assert_eq!(hits, 1, "{store} matched {hits} shares");
        }
    }
}

#[test]
fn nothing_outside_the_shares_resolves() {
    for seed in 0..200 {
        let v = any_view(seed);
        let mut p = tail(seed * 3 + 1, 2);
        p.push(word(seed));
        let path = format!("/{}", p.join("/"));
        if v.grant_for(&path).is_none() {
            assert_eq!(v.to_view(&path), None);
        }
        if v.grants().by_alias(&p[0]).is_none() {
            assert_eq!(v.to_store(&path), Resolved::NotFound);
        }
    }
}

#[test]
fn to_store_rw_never_returns_ro() {
    for seed in 0..200 {
        let v = any_view(seed);
        let tail = tail(seed, 2);
        for g in v.grants().iter() {
            let view = v.to_view(&format!("{}/{}", g.store_path, tail.join("/"))).expect("visible");
            match v.to_store_rw(&view) {
                Resolved::In { rights, .. } => assert_eq!(rights, Rights::Rw),
                Resolved::Forbidden { why, .. } => assert_eq!(why, Denial::ReadOnly),
                other => panic!("{other:?}"),
            }
        }
    }
}

#[test]
fn reviving_a_share_checks_overlaps_again() {
    let mut g = Grants::new();
    g.add(Namespace::Aliased, 1, "/contracts", None, Rights::Rw).unwrap();
    let mut g = Grants::from_rows(g.iter().cloned().map(|mut g| {
        g.revoked = true;
        g
    }).collect());
    g.add(Namespace::Aliased, 2, "/legal", Some("legal"), Rights::Ro).unwrap();
    let e = g.add(Namespace::Aliased, 1, "/legal/contracts", Some("contracts"), Rights::Rw).unwrap_err();
    assert!(matches!(e, GrantError::Overlaps { .. }), "{e:?}");
}

#[test]
fn each_refusal_has_its_sentence() {
    let mut g = Grants::new();
    g.add(Namespace::Aliased, 1, "/a", None, Rights::Rw).unwrap();
    let again = g.add(Namespace::Aliased, 1, "/a", Some("b"), Rights::Rw).unwrap_err();
    assert_eq!(again, GrantError::AlreadyGranted { alias: "a".into() });
    assert!(matches!(g.add(Namespace::Aliased, 2, "/x", Some(".."), Rights::Ro), Err(GrantError::BadAlias { .. })));
    assert!(matches!(g.add(Namespace::Aliased, 2, "x/", None, Rights::Ro), Err(GrantError::BadRoot { .. })));
    assert!(g.rename("nope", "b").is_err());
    let taken = g.add(Namespace::Aliased, 2, "/v/a", None, Rights::Ro).unwrap_err();
    assert!(taken.message().contains("/a"), "{}", taken.message());
    assert_eq!(Rights::parse("rw"), Some(Rights::Rw));
    assert_eq!(Rights::parse("x"), None);
    assert_eq!(Rights::Ro.as_str(), "ro");
    assert!(!Rights::Ro.can_write());
    assert_eq!(Denial::ReadOnly.why().is_empty(), false);
}

#[test]
fn paths_stay_when_shares_move_or_come() {
    let mut g = Grants::new();
    g.add(Namespace::Aliased, 1, "/legal/contracts", None, Rights::Rw).unwrap();
    let before = AccessView::account("a", Namespace::Aliased, g.clone()).to_view("/legal/contracts/x.md");
    let moved = Grants::from_rows(g.iter().cloned().map(|mut g| {
        g.store_path = "/archive/2025".to_string();
        g
    }).collect());
    assert_eq!(AccessView::account("a", Namespace::Aliased, moved).to_view("/archive/2025/x.md"), before);
    g.add(Namespace::Aliased, 2, "/a/products", None, Rights::Ro).unwrap();
    assert_eq!(AccessView::account("a", Namespace::Aliased, g).to_view("/legal/contracts/x.md"), before);
}

#[test]
fn only_a_live_share_holds_a_path() {
    let mut g = Grants::new();
    g.add(Namespace::Aliased, 1, "/legal", None, Rights::Rw).unwrap();
    let live = AccessView::account("a", Namespace::Aliased, g.clone());
    assert_eq!(live.grant_for("/legal/x").unwrap().node_id, 1);
    assert!(live.grant_for("/law").is_none());
    let dormant = Grants::from_rows(g.iter().cloned().map(|mut g| {
        g.dormant = true;
        g
    }).collect());
    let v = AccessView::account("a", Namespace::Aliased, dormant);
    assert!(v.grant_for("/legal").is_none());
    assert!(v.to_view("/legal/x").is_none());
}
