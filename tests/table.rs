use sync_engine::{run_gc, Changeset, CrrTable, GcPolicy, MeshSync, SyncSession, TieBreakPolicy};

fn text(t: &CrrTable, pk: &str, col: &str) -> Option<String> {
    t.get(pk).and_then(|r| r.get_string(col))
}

fn version(t: &CrrTable, pk: &str, col: &str) -> Option<u64> {
    t.get(pk).and_then(|r| r.version(col))
}

#[test]
fn test_new_api_basic() {
    let mut table = CrrTable::open_in_memory();
    table.insert("user_1").column_str("name", "Alice", 1).commit(&mut table).unwrap();
    let pks = table.pks();
    assert_eq!(pks.len(), 1);
}

#[test]
fn insert_uses_given_version_and_update_bumps() {
    let mut t = CrrTable::open_in_memory();
    t.insert("u1").column_str("name", "Alice", 7).commit(&mut t).unwrap();
    assert_eq!(version(&t, "u1", "name"), Some(7));
    for expected in 8..12u64 {
        t.update("u1").column_str("name", "x").commit(&mut t).unwrap();
        assert_eq!(version(&t, "u1", "name"), Some(expected));
    }
    t.update("u2").column("bytes", &[1u8, 2, 3]).commit(&mut t).unwrap();
    assert_eq!(version(&t, "u2", "bytes"), Some(1));
    assert_eq!(t.get("u2").unwrap().get("bytes").unwrap(), &[1u8, 2, 3][..]);
}

#[test]
fn update_at_max_version_fails() {
    let mut t = CrrTable::open_in_memory();
    t.insert("u1").column_str("a", "x", u64::MAX).commit(&mut t).unwrap();
    assert!(t.update("u1").column_str("a", "y").commit(&mut t).is_err());
    assert_eq!(text(&t, "u1", "a").as_deref(), Some("x"));
}

#[test]
fn history_records_parents() {
    let mut t = CrrTable::open_in_memory();
    t.insert("k").column_str("v", "v1", 1).commit(&mut t).unwrap();
    t.update("k").column_str("v", "v2").commit(&mut t).unwrap();
    t.update("k").column_str("v", "v3").commit(&mut t).unwrap();
    let row = t.get("k").unwrap();
    let h = row.dag_history("v").unwrap();
    assert_eq!(h.len(), 3);
    assert_eq!(h[0].parent_version, None);
    assert_eq!(h[1].parent_version, Some(1));
    assert_eq!(h[2].version, 3);
    assert_eq!(h[2].value, b"v3".to_vec());
    assert_eq!(h[2].parent_version, Some(2));
}

#[test]
fn get_absent_and_delete() {
    let mut t = CrrTable::open_in_memory();
    assert!(t.get("nope").is_none());
    assert!(t.is_empty());
    t.insert("a").column_str("x", "1", 1).column_str("y", "2", 1).commit(&mut t).unwrap();
    t.insert("b").column_str("x", "3", 1).commit(&mut t).unwrap();
    assert_eq!(t.len(), 2);
    let row = t.get("a").unwrap();
    assert_eq!(row.pk(), "a");
    assert_eq!(row.columns().len(), 2);
    let mut names = row.column_names();
    names.sort();
    assert_eq!(names, vec!["x".to_string(), "y".to_string()]);
    assert!(row.get("z").is_none());
    t.delete("a");
    assert!(t.get("a").is_none());
    assert_eq!(t.len(), 1);
}

#[test]
fn get_string_rejects_invalid_utf8() {
    let mut t = CrrTable::open_in_memory();
    t.insert("a").column("bin", &[0xffu8, 0xfe], 1).commit(&mut t).unwrap();
    let row = t.get("a").unwrap();
    assert!(row.get_string("bin").is_none());
    assert_eq!(row.get("bin").unwrap(), &[0xffu8, 0xfe][..]);
}

#[test]
fn disjoint_columns_converge() {
    let mut a = CrrTable::open_in_memory();
    let mut b = CrrTable::open_in_memory();
    for t in [&mut a, &mut b] {
        t.insert("u1").column_str("name", "Alice", 1).column_str("city", "Boston", 1).commit(t).unwrap();
    }
    a.update("u1").column_str("city", "NYC").commit(&mut a).unwrap();
    b.update("u1").column_str("name", "Alicia").commit(&mut b).unwrap();
    let res = SyncSession::new(TieBreakPolicy::LexicographicMin).sync(&mut a, &mut b).unwrap();
    for t in [&a, &b] {
        assert_eq!(text(t, "u1", "name").as_deref(), Some("Alicia"));
        assert_eq!(version(t, "u1", "name"), Some(2));
        assert_eq!(text(t, "u1", "city").as_deref(), Some("NYC"));
        assert_eq!(version(t, "u1", "city"), Some(2));
    }
    assert_eq!(res.a_to_b.updated + res.b_to_a.updated, 2);
    assert_eq!(res.total_conflicts(), 0);
    assert_eq!(res.total_changes(), 2);
}

#[test]
fn same_version_lexicographic_min() {
    let mut a = CrrTable::open_in_memory();
    let mut b = CrrTable::open_in_memory();
    for t in [&mut a, &mut b] {
        t.insert("u1").column_str("name", "Alice", 1).commit(t).unwrap();
    }
    a.update("u1").column_str("name", "Alice Smith").commit(&mut a).unwrap();
    b.update("u1").column_str("name", "Alice Jones").commit(&mut b).unwrap();
    let from_b = b.changeset();
    let ra = a.merge(&from_b, TieBreakPolicy::LexicographicMin).unwrap();
    let from_a = a.changeset();
    let rb = b.merge(&from_a, TieBreakPolicy::LexicographicMin).unwrap();
    for t in [&a, &b] {
        assert_eq!(text(t, "u1", "name").as_deref(), Some("Alice Jones"));
        assert_eq!(version(t, "u1", "name"), Some(3));
    }
    assert!(ra.conflicts + rb.conflicts >= 1);
    let h = a.get("u1").unwrap();
    let last = h.dag_history("name").unwrap().last().unwrap();
    assert_eq!(last.parent_version, Some(2));
    assert_eq!(last.parent2_version, Some(2));
}

#[test]
fn newer_remote_wins() {
    let mut local = CrrTable::open_in_memory();
    local.insert("doc").column_str("status", "draft", 1).commit(&mut local).unwrap();
    let mut cs = Changeset::new();
    cs.insert("doc", "status", b"published".to_vec(), 3);
    let r = local.merge(&cs, TieBreakPolicy::LexicographicMin).unwrap();
    assert_eq!(text(&local, "doc", "status").as_deref(), Some("published"));
    assert_eq!(version(&local, "doc", "status"), Some(3));
    assert_eq!(r.updated, 1);
    assert_eq!(r.conflicts, 0);
    assert_eq!(r.total_changes(), 1);
}

#[test]
fn asymmetric_gc_then_sync() {
    let mut a = CrrTable::open_in_memory();
    let mut b = CrrTable::open_in_memory();
    a.insert("k").column_str("v", "v1", 1).commit(&mut a).unwrap();
    b.insert("k").column_str("v", "v1", 1).commit(&mut b).unwrap();
    for i in 2..=5 {
        a.update("k").column_str("v", &format!("v{}", i)).commit(&mut a).unwrap();
    }
    let removed = run_gc(&mut a, GcPolicy::KeepLast(2));
    assert_eq!(removed, 3);
    assert_eq!(a.get("k").unwrap().dag_history("v").unwrap().len(), 2);
    let session = SyncSession::new(TieBreakPolicy::LexicographicMin);
    session.sync(&mut a, &mut b).unwrap();
    for t in [&a, &b] {
        assert_eq!(text(t, "k", "v").as_deref(), Some("v5"));
        assert_eq!(version(t, "k", "v"), Some(5));
    }
    let again = session.sync(&mut a, &mut b).unwrap();
    assert_eq!(again.total_changes(), 0);
    assert!(!again.changed());
}

#[test]
fn soft_delete_no_zombie() {
    let mut a = CrrTable::open_in_memory();
    let mut b = CrrTable::open_in_memory();
    for t in [&mut a, &mut b] {
        t.insert("r1").column_str("name", "Alice", 1).column_str("email", "a@x", 1).commit(t).unwrap();
    }
    a.update("r1").column_str("name", "__tombstone__").column_str("email", "__tombstone__").commit(&mut a).unwrap();
    a.gc(1);
    SyncSession::new(TieBreakPolicy::LexicographicMin).sync(&mut a, &mut b).unwrap();
    for t in [&a, &b] {
        for col in ["name", "email"] {
            assert_eq!(text(t, "r1", col).as_deref(), Some("__tombstone__"));
            assert_eq!(version(t, "r1", col), Some(2));
        }
    }
    SyncSession::new(TieBreakPolicy::LexicographicMin).sync(&mut b, &mut a).unwrap();
    assert_eq!(text(&b, "r1", "name").as_deref(), Some("__tombstone__"));
}

#[test]
fn mesh_reaches_fixpoint() {
    let mut mesh = MeshSync::new(TieBreakPolicy::LexicographicMin);
    for p in 0..4 {
        let mut t = CrrTable::open_in_memory();
        for r in 0..100 {
            let pk = format!("p{}_r{}", p, r);
            t.insert(&pk).column_str("val", &format!("{}", r), 1).commit(&mut t).unwrap();
        }
        mesh.add_peer(t);
    }
    let rounds = mesh.sync_all();
    assert!(rounds <= 2);
    for t in &mesh.peers {
        assert_eq!(t.len(), 400);
    }
    let first = &mesh.peers[0];
    for t in &mesh.peers[1..] {
        for pk in first.pks() {
            assert_eq!(text(t, &pk, "val"), text(first, &pk, "val"));
            assert_eq!(version(t, &pk, "val"), version(first, &pk, "val"));
        }
    }
}

#[test]
fn merge_is_idempotent_and_counts() {
    let mut src = CrrTable::open_in_memory();
    src.insert("a").column_str("x", "1", 2).column_str("y", "2", 1).commit(&mut src).unwrap();
    let cs = src.changeset();
    assert_eq!(cs.len(), 1);
    assert_eq!(cs.column_count(), 2);
    assert!(!cs.is_empty());
    let mut dst = CrrTable::open_in_memory();
    let r1 = dst.merge(&cs, TieBreakPolicy::PreferExisting).unwrap();
    assert_eq!(r1.inserted, 2);
    let r2 = dst.merge(&cs, TieBreakPolicy::PreferExisting).unwrap();
    assert_eq!(r2.inserted + r2.updated, 0);
    assert_eq!(r2.skipped, 2);
    assert_eq!(r2.conflicts, 0);
    assert_eq!(text(&dst, "a", "x").as_deref(), Some("1"));
    assert_eq!(version(&dst, "a", "x"), Some(2));
}

#[test]
fn tiebreak_policies() {
    for (policy, winner, bumped) in [
        (TieBreakPolicy::PreferExisting, "local", false),
        (TieBreakPolicy::PreferIncoming, "remote", true),
        (TieBreakPolicy::LexicographicMin, "local", false),
    ] {
        let mut t = CrrTable::open_in_memory();
        t.insert("k").column_str("c", "local", 4).commit(&mut t).unwrap();
        let mut cs = Changeset::new();
        cs.insert("k", "c", b"remote".to_vec(), 4);
        let r = t.merge(&cs, policy).unwrap();
        assert_eq!(r.conflicts, 1);
        assert_eq!(text(&t, "k", "c").as_deref(), Some(winner));
        assert_eq!(version(&t, "k", "c"), Some(if bumped { 5 } else { 4 }));
    }
}

#[test]
fn merge_older_and_equal_values_skip() {
    let mut t = CrrTable::open_in_memory();
    t.insert("k").column_str("c", "same", 3).column_str("d", "new", 5).commit(&mut t).unwrap();
    let mut cs = Changeset::new();
    cs.insert("k", "c", b"same".to_vec(), 3);
    cs.insert("k", "d", b"old".to_vec(), 2);
    let r = t.merge(&cs, TieBreakPolicy::PreferIncoming).unwrap();
    assert_eq!(r.skipped, 2);
    assert_eq!(r.conflicts, 0);
    assert_eq!(text(&t, "k", "d").as_deref(), Some("new"));
}

#[test]
fn merge_overflowing_tie_fails_unchanged() {
    let mut t = CrrTable::open_in_memory();
    t.insert("k").column_str("c", "b", u64::MAX).commit(&mut t).unwrap();
    let mut cs = Changeset::new();
    cs.insert("k", "c", b"a".to_vec(), u64::MAX);
    cs.insert("k", "other", b"z".to_vec(), 1);
    assert!(t.merge(&cs, TieBreakPolicy::LexicographicMin).is_err());
    assert_eq!(text(&t, "k", "c").as_deref(), Some("b"));
    assert!(t.get("k").unwrap().get("other").is_none());
}

#[test]
fn round_trip_into_empty_table() {
    let mut t = CrrTable::open_in_memory();
    t.insert("a").column_str("x", "1", 3).commit(&mut t).unwrap();
    t.insert("b").column_str("y", "2", 9).commit(&mut t).unwrap();
    let mut fresh = CrrTable::open_in_memory();
    fresh.merge(&t.changeset(), TieBreakPolicy::LexicographicMin).unwrap();
    for (pk, col) in [("a", "x"), ("b", "y")] {
        assert_eq!(text(&fresh, pk, col), text(&t, pk, col));
        assert_eq!(version(&fresh, pk, col), version(&t, pk, col));
    }
    assert_eq!(fresh.len(), 2);
}

#[test]
fn gc_zero_keeps_one_and_keep_all() {
    let mut t = CrrTable::open_in_memory();
    t.insert("k").column_str("v", "1", 1).commit(&mut t).unwrap();
    t.update("k").column_str("v", "2").commit(&mut t).unwrap();
    t.update("k").column_str("v", "3").commit(&mut t).unwrap();
    assert_eq!(run_gc(&mut t, GcPolicy::KeepAll), 0);
    assert_eq!(t.gc(0), 2);
    let row = t.get("k").unwrap();
    let h = row.dag_history("v").unwrap();
    assert_eq!(h.len(), 1);
    assert_eq!(h[0].version, 3);
    assert_eq!(version(&t, "k", "v"), Some(3));
    assert_eq!(text(&t, "k", "v").as_deref(), Some("3"));
    assert_eq!(GcPolicy::default(), GcPolicy::KeepLast(10));
}

#[test]
fn delta_changeset_and_heads() {
    let mut a = CrrTable::open_in_memory();
    let mut b = CrrTable::open_in_memory();
    a.insert("p").column_str("x", "1", 2).column_str("y", "1", 1).commit(&mut a).unwrap();
    a.insert("q").column_str("x", "1", 1).commit(&mut a).unwrap();
    b.insert("p").column_str("x", "0", 1).column_str("y", "0", 1).commit(&mut b).unwrap();
    let heads_b = sync_engine::HeadExchange::from_table("b", &b);
    let delta = Changeset::compute(&a, &heads_b);
    assert_eq!(delta.column_count(), 2);
    assert_eq!(delta.len(), 2);
    assert_eq!(delta.estimate_bytes(), (1 + 1 + 8 + 1) + (1 + 1 + 8 + 1));
    let own = sync_engine::HeadExchange::from_table("a", &a);
    assert!(Changeset::compute(&a, &own).is_empty());
}

#[test]
fn disjoint_changesets_commute() {
    let make = || {
        let mut t = CrrTable::open_in_memory();
        t.insert("k").column_str("a", "m", 2).column_str("b", "m", 2).commit(&mut t).unwrap();
        t
    };
    let mut c1 = Changeset::new();
    c1.insert("k", "a", b"c".to_vec(), 2);
    c1.insert("n", "x", b"1".to_vec(), 1);
    let mut c2 = Changeset::new();
    c2.insert("k", "b", b"z".to_vec(), 3);
    c2.insert("n", "y", b"2".to_vec(), 4);
    let mut t12 = make();
    t12.merge(&c1, TieBreakPolicy::LexicographicMin).unwrap();
    t12.merge(&c2, TieBreakPolicy::LexicographicMin).unwrap();
    let mut t21 = make();
    t21.merge(&c2, TieBreakPolicy::LexicographicMin).unwrap();
    t21.merge(&c1, TieBreakPolicy::LexicographicMin).unwrap();
    for (pk, col) in [("k", "a"), ("k", "b"), ("n", "x"), ("n", "y")] {
        assert_eq!(text(&t12, pk, col), text(&t21, pk, col));
        assert_eq!(version(&t12, pk, col), version(&t21, pk, col));
    }
    assert_eq!(text(&t12, "k", "a").as_deref(), Some("c"));
    assert_eq!(version(&t12, "k", "a"), Some(3));
}

#[test]
fn test_legacy_api_compatible() {
    let mut table = sync_engine::LegacyCrrTable::new();
    let cols = vec![("name".to_string(), "Alice".to_string())];
    let vers = vec![("name".to_string(), 1u64)];
    table.insert_or_update("user_1", cols, vers).unwrap();
    assert_eq!(table.table().len(), 1);
    assert_eq!(table.table().get("user_1").unwrap().get_string("name").unwrap(), "Alice");
}

#[test]
fn text_table_default_version_and_merge() {
    let mut a = sync_engine::LegacyCrrTable::new();
    a.insert_or_update("k", vec![("c".to_string(), "beta".to_string())], vec![]).unwrap();
    assert_eq!(version(a.table(), "k", "c"), Some(1));
    let mut b = sync_engine::LegacyCrrTable::new();
    b.insert_or_update("k", vec![("c".to_string(), "alpha".to_string())], vec![("c".to_string(), 1)]).unwrap();
    let r = a.crr_merge(&b.changeset(), TieBreakPolicy::LexicographicMin).unwrap();
    assert_eq!(r.conflicts, 1);
    assert_eq!(text(a.table(), "k", "c").as_deref(), Some("alpha"));
    assert_eq!(version(a.table(), "k", "c"), Some(2));
}

#[test]
fn mesh_convergence_check() {
    let mut mesh = MeshSync::new(TieBreakPolicy::LexicographicMin);
    let mut a = CrrTable::open_in_memory();
    a.insert("x").column_str("v", "1", 1).commit(&mut a).unwrap();
    let b = CrrTable::open_in_memory();
    mesh.add_peer(a);
    mesh.add_peer(b);
    assert!(!mesh.is_converged());
    assert!(!mesh.peers[0].same_cells(&mesh.peers[1]));
    assert_eq!(mesh.sync_all(), 2);
    assert!(mesh.is_converged());
}

#[test]
fn same_version_tie_settled_by_sessions() {
    let mut a = CrrTable::open_in_memory();
    let mut b = CrrTable::open_in_memory();
    for t in [&mut a, &mut b] {
        t.insert("u1").column_str("name", "Alice", 1).commit(t).unwrap();
    }
    a.update("u1").column_str("name", "Alice Smith").commit(&mut a).unwrap();
    b.update("u1").column_str("name", "Alice Jones").commit(&mut b).unwrap();
    let s = SyncSession::new(TieBreakPolicy::LexicographicMin);
    let first = s.sync(&mut a, &mut b).unwrap();
    assert!(first.total_conflicts() >= 1);
    assert_eq!(text(&a, "u1", "name").as_deref(), Some("Alice Jones"));
    assert_eq!(version(&a, "u1", "name"), Some(3));
    s.sync(&mut a, &mut b).unwrap();
    for t in [&a, &b] {
        assert_eq!(text(t, "u1", "name").as_deref(), Some("Alice Jones"));
        assert_eq!(version(t, "u1", "name"), Some(3));
    }
    let third = s.sync(&mut a, &mut b).unwrap();
    assert!(!third.changed());
}

#[test]
fn mesh_settles_ties() {
    let mut mesh = MeshSync::new(TieBreakPolicy::LexicographicMin);
    for name in ["carol", "alice", "bob"] {
        let mut t = CrrTable::open_in_memory();
        t.insert("u").column_str("name", name, 4).commit(&mut t).unwrap();
        mesh.add_peer(t);
    }
    let rounds = mesh.sync_all();
    assert!(rounds < 100);
    assert!(mesh.is_converged());
    assert_eq!(text(&mesh.peers[2], "u", "name").as_deref(), Some("alice"));
}

#[test]
fn insert_below_current_version_refused() {
    let mut t = CrrTable::open_in_memory();
    t.insert("k").column_str("a", "x", 5).commit(&mut t).unwrap();
    let r = t.insert("k").column_str("b", "new", 1).column_str("a", "old", 3).commit(&mut t);
    assert!(r.is_err());
    assert_eq!(text(&t, "k", "a").as_deref(), Some("x"));
    assert_eq!(version(&t, "k", "a"), Some(5));
    assert_eq!(text(&t, "k", "b").as_deref(), Some("new"));
}

#[test]
fn same_version_write_replaces_history_node() {
    let mut t = CrrTable::open_in_memory();
    t.insert("k").column_str("a", "x", 1).commit(&mut t).unwrap();
    t.update("k").column_str("a", "y").commit(&mut t).unwrap();
    t.insert("k").column_str("a", "z", 2).commit(&mut t).unwrap();
    let row = t.get("k").unwrap();
    let h = row.dag_history("a").unwrap();
    assert_eq!(h.len(), 2);
    assert_eq!(h[0].version, 1);
    assert_eq!(h[1].version, 2);
    assert_eq!(h[1].value, b"z".to_vec());
}
