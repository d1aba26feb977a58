//! The engine's laws: properties that relate several operations, stated
//! and proved over the same transition functions the executable code is
//! verified against.

use vstd::prelude::*;
use vstd::set_lib::lemma_int_range;
use vstd::set_lib::set_int_range;
use vstd::set_lib::lemma_len_subset;
use vstd::utf8::decode_utf8;
use vstd::utf8::encode_utf8;

use crate::BackupError;
use crate::digest::sha256_hex;
use crate::disk::FileKind;
use crate::disk::FileView;
use crate::meta::MetaView;
use crate::meta::ReasonView;
use crate::meta::lemma_meta_round_trip;
use crate::meta::metadata_json;
use crate::meta::p_meta;
use crate::store::MAX_BACKUPS_PER_FILE;
use crate::store::backup_dir_of;
use crate::store::base_name;
use crate::store::create_spec;
use crate::store::in_dir;
use crate::store::is_snapshot_file;
use crate::store::is_snapshot_name;
use crate::store::is_victim;
use crate::store::lemma_base_name_suffix;
use crate::store::lemma_snapshot_path_shape;
use crate::store::newer_than;
use crate::store::no_slash;
use crate::store::prune_map;
use crate::store::pruned_keys;
use crate::store::restore_precheck;
use crate::store::restore_spec;
use crate::store::sidecar_of;
use crate::store::snapshot_path_of;
use crate::store::snapshot_set;
use crate::store::stamp_usable;
use crate::store::victims;
use crate::store::with_dir;

verus! {

// ------------------------------------------------------------------
// Determinism of the digest.

/// The digest is a function of the content alone: equal byte streams
/// always carry equal digests, wherever and whenever they are hashed.
pub proof fn lemma_digest_deterministic(c1: Seq<u8>, c2: Seq<u8>)
    requires
        c1 == c2,
    ensures
        sha256_hex(c1) == sha256_hex(c2),
{
}

// ------------------------------------------------------------------
// Small path facts.

/// A directory member stays a member under a separator-free extension.
proof fn lemma_in_dir_append(p: Seq<char>, dir: Seq<char>, ext: Seq<char>)
    requires
        in_dir(p, dir),
        no_slash(ext),
    ensures
        in_dir(p + ext, dir),
{
    let q = p + ext;
    assert(q.take(dir.len() as int) =~= p.take(dir.len() as int));
    assert forall|i: int|
        0 <= i < q.skip(dir.len() + 1 as int).len() implies (#[trigger] q.skip(
        dir.len() + 1 as int,
    )[i]) != '/' by {
        if i < p.len() - dir.len() - 1 {
            assert(q.skip(dir.len() + 1 as int)[i] == p.skip(dir.len() + 1 as int)[i]);
        } else {
            assert(q.skip(dir.len() + 1 as int)[i] == ext[i - (p.len() - dir.len() - 1)]);
        }
    }
}

/// Everything pruning removes lies in the pruned directory.
proof fn lemma_pruned_keys_in_dir(c: Map<Seq<char>, FileView>, dir: Seq<char>, x: Seq<char>)
    requires
        pruned_keys(c, dir).contains(x),
    ensures
        in_dir(x, dir),
{
    reveal_strlit(".backup.json");
    if victims(c, dir).contains(x) {
    } else {
        let v = choose|v: Seq<char>| victims(c, dir).contains(v) && sidecar_of(v) == x;
        assert(in_dir(v, dir));
        assert(no_slash(".backup.json"@)) by {
            assert(forall|i: int|
                0 <= i < ".backup.json"@.len() ==> (#[trigger] ".backup.json"@[i]) != '/');
        }
        lemma_in_dir_append(v, dir, ".backup.json"@);
    }
}

// ------------------------------------------------------------------
// Retention.

/// A finite injection into a finite set cannot outgrow it.
proof fn lemma_inj_card<A, B>(s: Set<A>, t: Set<B>, f: spec_fn(A) -> B)
    requires
        s.finite(),
        t.finite(),
        forall|x: A| s.contains(x) ==> t.contains(#[trigger] f(x)),
        forall|x: A, y: A|
            s.contains(x) && s.contains(y) && x != y ==> #[trigger] f(x) != #[trigger] f(y),
    ensures
        s.len() <= t.len(),
    decreases s.len(),
{
    if s.len() > 0 {
        let x = s.choose();
        assert(s.contains(x));
        lemma_inj_card(s.remove(x), t.remove(f(x)), f);
    }
}

/// Retention invariant: after pruning, a backup directory holds at most
/// the retention count of snapshots, provided snapshot stamps are
/// distinct (as they are on any well-formed image).
pub proof fn lemma_retention_invariant(c: Map<Seq<char>, FileView>, dir: Seq<char>)
    requires
        c.dom().finite(),
        forall|p: Seq<char>, q: Seq<char>|
            is_snapshot_file(c, dir, p) && is_snapshot_file(c, dir, q) && p != q ==> (
            #[trigger] c[p]).mtime != (#[trigger] c[q]).mtime,
    ensures
        snapshot_set(prune_map(c, dir), dir).len() <= MAX_BACKUPS_PER_FILE,
{
    let c2 = prune_map(c, dir);
    let s = snapshot_set(c2, dir);
    let range = set_int_range(0, MAX_BACKUPS_PER_FILE as int);
    let f = |p: Seq<char>| newer_than(c, dir, c[p].mtime).len() as int;

    assert(s.finite()) by {
        assert(c2.dom().finite()) by {
            assert(c2.dom() =~= c.dom().difference(pruned_keys(c, dir)).intersect(c.dom()));
        }
    }
    lemma_int_range(0, MAX_BACKUPS_PER_FILE as int);

    // Survivors keep their content, are snapshots of `c`, and are not
    // victims, so each has fewer than the retention count of newer peers.
    assert forall|p: Seq<char>| s.contains(p) implies is_snapshot_file(c, dir, p) && !is_victim(
        c,
        dir,
        p,
    ) by {
        assert(c2.contains_key(p) && c2[p] == c[p]);
        assert(!pruned_keys(c, dir).contains(p));
        if is_victim(c, dir, p) {
            assert(victims(c, dir).contains(p));
        }
    }
    assert forall|p: Seq<char>| s.contains(p) implies range.contains(#[trigger] f(p)) by {
        assert(newer_than(c, dir, c[p].mtime).finite()) by {
            assert(newer_than(c, dir, c[p].mtime) =~= newer_than(
                c,
                dir,
                c[p].mtime,
            ).intersect(c.dom()));
        }
        assert(newer_than(c, dir, c[p].mtime).len() < MAX_BACKUPS_PER_FILE);
    }
    assert forall|p: Seq<char>, q: Seq<char>|
        s.contains(p) && s.contains(q) && p != q implies #[trigger] f(p) != #[trigger] f(q) by {
        assert(is_snapshot_file(c, dir, p) && is_snapshot_file(c, dir, q));
        assert(c[p].mtime != c[q].mtime);
        if c[p].mtime < c[q].mtime {
            lemma_newer_count_strict(c, dir, p, q);
        } else {
            lemma_newer_count_strict(c, dir, q, p);
        }
    }
    lemma_inj_card(s, range, f);
}

/// A strictly older snapshot has strictly more newer peers.
proof fn lemma_newer_count_strict(
    c: Map<Seq<char>, FileView>,
    dir: Seq<char>,
    p: Seq<char>,
    q: Seq<char>,
)
    requires
        c.dom().finite(),
        is_snapshot_file(c, dir, p),
        is_snapshot_file(c, dir, q),
        c[p].mtime < c[q].mtime,
    ensures
        newer_than(c, dir, c[p].mtime).len() > newer_than(c, dir, c[q].mtime).len(),
{
    let np = newer_than(c, dir, c[p].mtime);
    let nq = newer_than(c, dir, c[q].mtime);
    assert(np.finite() && nq.finite()) by {
        assert(np =~= np.intersect(c.dom()));
        assert(nq =~= nq.intersect(c.dom()));
    }
    assert(nq.insert(q).subset_of(np));
    assert(!nq.contains(q));
    lemma_len_subset(nq.insert(q), np);
    assert(nq.insert(q).len() == nq.len() + 1);
}

/// Pruning keeps any snapshot with fewer than the retention count of
/// newer peers, together with its sidecar.
pub proof fn lemma_prune_keeps(c: Map<Seq<char>, FileView>, dir: Seq<char>, p: Seq<char>)
    requires
        is_snapshot_file(c, dir, p),
        newer_than(c, dir, c[p].mtime).len() < MAX_BACKUPS_PER_FILE,
    ensures
        prune_map(c, dir).contains_key(p),
        prune_map(c, dir)[p] == c[p],
        c.contains_key(sidecar_of(p)) ==> prune_map(c, dir).contains_key(sidecar_of(p))
            && prune_map(c, dir)[sidecar_of(p)] == c[sidecar_of(p)],
{
    reveal_strlit(".backup.json");
    reveal_strlit(".json");
    assert(!pruned_keys(c, dir).contains(p)) by {
        if victims(c, dir).contains(p) {
            assert(false);
        }
        if victims(c, dir).map(|v: Seq<char>| sidecar_of(v)).contains(p) {
            let v = choose|v: Seq<char>| victims(c, dir).contains(v) && sidecar_of(v) == p;
            assert(in_dir(v, dir));
            assert(ends_with_json(base_name(p))) by {
                lemma_base_name_suffix(v, ".backup.json"@);
                let b = base_name(p);
                assert(b == base_name(v) + ".backup.json"@);
                assert(b.skip(b.len() - 5) =~= ".json"@);
            }
            assert(!is_snapshot_name(base_name(p)));
            assert(false);
        }
    }
    if c.contains_key(sidecar_of(p)) {
        assert(!pruned_keys(c, dir).contains(sidecar_of(p))) by {
            if victims(c, dir).contains(sidecar_of(p)) {
                assert(is_snapshot_name(base_name(sidecar_of(p))));
                assert(ends_with_json(base_name(sidecar_of(p)))) by {
                    lemma_base_name_suffix(p, ".backup.json"@);
                    let b = base_name(sidecar_of(p));
                    assert(b == base_name(p) + ".backup.json"@);
                    assert(b.skip(b.len() - 5) =~= ".json"@);
                }
                assert(false);
            }
            if victims(c, dir).map(|v: Seq<char>| sidecar_of(v)).contains(sidecar_of(p)) {
                let scp = sidecar_of(p);
                let v = choose|v: Seq<char>|
                    victims(c, dir).contains(v) && sidecar_of(v) == scp;
                assert(victims(c, dir).contains(v) && sidecar_of(v) == scp);
                assert(v =~= p) by {
                    assert(v + ".backup.json"@ == p + ".backup.json"@);
                    assert((v + ".backup.json"@).len() == v.len() + ".backup.json"@.len());
                    assert((p + ".backup.json"@).len() == p.len() + ".backup.json"@.len());
                    assert(v.len() == p.len());
                    assert(forall|i: int|
                        0 <= i < v.len() ==> #[trigger] v[i] == (v + ".backup.json"@)[i] && p[i]
                            == (p + ".backup.json"@)[i]);
                }
                assert(victims(c, dir).contains(p));
                assert(false);
            }
        }
    }
}

/// Whether a name ends in ".json"; spelled out so the snapshot-name
/// predicate can be contradicted.
pub open spec fn ends_with_json(b: Seq<char>) -> bool {
    crate::text::ends_with(b, ".json"@)
}


// ------------------------------------------------------------------
// Restoration succeeds when it is owed.

/// When a restoration is owed success: the sidecar decodes, the
/// snapshot's bytes still match the recorded checksum, the live original
/// (an ordinary file) either matches the record or `force` is set, and
/// the snapshot itself survives the pre-restore snapshot's retention
/// pass.  The restored original then carries exactly the snapshot's
/// bytes.
#[verifier::rlimit(100)]
pub proof fn lemma_restore_succeeds(
    c0: Map<Seq<char>, FileView>,
    t0: nat,
    root: Seq<char>,
    bp: Seq<char>,
    ts: Seq<char>,
    force: bool,
)
    requires
        c0.dom().finite(),
        restore_precheck(c0, bp) is Ok,
        c0.contains_key(restore_precheck(c0, bp)->Ok_0.original_path),
        c0[restore_precheck(c0, bp)->Ok_0.original_path].kind is Regular,
        !force ==> sha256_hex(c0[restore_precheck(c0, bp)->Ok_0.original_path].data)
            == restore_precheck(c0, bp)->Ok_0.checksum,
        sha256_hex(c0[bp].data) == restore_precheck(c0, bp)->Ok_0.checksum,
        stamp_usable(ts),
        forall|p: Seq<char>| #[trigger] c0.contains_key(p) ==> c0[p].mtime < t0,
        bp != snapshot_path_of(root, restore_precheck(c0, bp)->Ok_0.original_path, ts),
        in_dir(bp, backup_dir_of(root, restore_precheck(c0, bp)->Ok_0.original_path)) ==> (
        is_snapshot_file(c0, backup_dir_of(root, restore_precheck(c0, bp)->Ok_0.original_path), bp)
            && newer_than(
            c0,
            backup_dir_of(root, restore_precheck(c0, bp)->Ok_0.original_path),
            c0[bp].mtime,
        ).len() + 1 < MAX_BACKUPS_PER_FILE),
    ensures
        restore_spec(c0, t0, root, bp, ts, force) is Ok,
        restore_spec(c0, t0, root, bp, ts, force)->Ok_0.0.contains_key(
            restore_precheck(c0, bp)->Ok_0.original_path,
        ),
        restore_spec(c0, t0, root, bp, ts, force)->Ok_0.0[restore_precheck(
            c0,
            bp,
        )->Ok_0.original_path].data == c0[bp].data,
{
    let m = restore_precheck(c0, bp)->Ok_0;
    let orig = m.original_path;
    let dir = backup_dir_of(root, orig);
    let o = create_spec(c0, t0, root, orig, ReasonView::PreSystemChange, ts)->Ok_0;

    // Unfold the inner creation.
    let content = c0[orig].data;
    let bp2 = snapshot_path_of(root, orig, ts);
    let m2 = MetaView {
        original_path: orig,
        backup_path: bp2,
        timestamp: ts,
        reason: ReasonView::PreSystemChange,
        checksum: sha256_hex(content),
        size_bytes: content.len() as u64,
    };
    let r1 = with_dir(c0, t0, root);
    let r2 = with_dir(r1.0, r1.1, dir);
    let c3 = r2.0.insert(bp2, FileView { kind: FileKind::Regular, data: content, mtime: r2.1 });
    let c4 = c3.insert(
        sidecar_of(bp2),
        FileView {
            kind: FileKind::Regular,
            data: encode_utf8(metadata_json(m2)),
            mtime: (r2.1 + 1) as nat,
        },
    );
    assert(o.0 == prune_map(c4, dir));

    // The snapshot being restored survives the retention pass.
    assert(o.0.contains_key(bp) && o.0[bp] == c0[bp]) by {
        reveal_strlit(".backup.json");
        assert(c4.contains_key(bp) && c4[bp] == c0[bp]) by {
            assert(bp != bp2);
            assert(bp != sidecar_of(bp2)) by {
                if bp == sidecar_of(bp2) {
                    lemma_snapshot_path_shape(root, orig, ts);
                    assert(in_dir(bp2, dir));
                    assert(no_slash(".backup.json"@)) by {
                        assert(forall|i: int|
                            0 <= i < ".backup.json"@.len() ==> (
                            #[trigger] ".backup.json"@[i]) != '/');
                    }
                    lemma_in_dir_append(bp2, dir, ".backup.json"@);
                    assert(in_dir(bp, dir));
                    assert(is_snapshot_file(c0, dir, bp));
                    assert(is_snapshot_name(base_name(bp)));
                    assert(ends_with_json(base_name(bp))) by {
                        lemma_base_name_suffix(bp2, ".backup.json"@);
                        reveal_strlit(".json");
                        let b = base_name(bp);
                        assert(b == base_name(bp2) + ".backup.json"@);
                        assert(b.skip(b.len() - 5) =~= ".json"@);
                    }
                    assert(false);
                }
            }
            assert(c0.contains_key(root) ==> r1.0 == c0);
            assert(!c0.contains_key(root) ==> bp != root);
            assert(r1.0.contains_key(dir) ==> r2.0 == r1.0);
        }
        if in_dir(bp, dir) {
            // Fewer than the retention count of newer snapshots stand
            // beside it, even counting the fresh pre-restore copy.
            let old_newer = newer_than(c0, dir, c0[bp].mtime);
            let new_newer = newer_than(c4, dir, c4[bp].mtime);
            assert(new_newer.subset_of(old_newer.insert(bp2))) by {
                assert forall|q: Seq<char>| new_newer.contains(q) implies old_newer.insert(
                    bp2,
                ).contains(q) by {
                    if q != bp2 && q != sidecar_of(bp2) {
                        assert(c4[q] == c0[q] && c0.contains_key(q)) by {
                            assert(c0.contains_key(root) ==> r1.0 == c0);
                            assert(r1.0.contains_key(dir) ==> r2.0 == r1.0);
                            if !c0.contains_key(root) && q == root {
                                assert(c4[q].kind is Directory);
                                assert(false);
                            }
                            if !r1.0.contains_key(dir) && q == dir {
                                assert(c4[q].kind is Directory);
                                assert(false);
                            }
                        }
                    } else if q == sidecar_of(bp2) {
                        assert(is_snapshot_name(base_name(q)));
                        assert(ends_with_json(base_name(q))) by {
                            lemma_snapshot_path_shape(root, orig, ts);
                            lemma_base_name_suffix(bp2, ".backup.json"@);
                            reveal_strlit(".json");
                            let b = base_name(q);
                            assert(b == base_name(bp2) + ".backup.json"@);
                            assert(b.skip(b.len() - 5) =~= ".json"@);
                        }
                        assert(false);
                    }
                }
            }
            assert(old_newer.finite()) by {
                assert(old_newer =~= old_newer.intersect(c0.dom()));
            }
            lemma_len_subset(new_newer, old_newer.insert(bp2));
            assert(old_newer.insert(bp2).len() <= old_newer.len() + 1);
            assert(is_snapshot_file(c4, dir, bp));
            lemma_prune_keeps(c4, dir, bp);
        } else {
            assert(!pruned_keys(c4, dir).contains(bp)) by {
                if pruned_keys(c4, dir).contains(bp) {
                    lemma_pruned_keys_in_dir(c4, dir, bp);
                }
            }
        }
    }
    assert(crate::store::restore_copy_state(c0, t0, root, bp, ts) == (
        o.0.insert(orig, FileView { kind: FileKind::Regular, data: c0[bp].data, mtime: o.1 }),
        (o.1 + 1) as nat,
    ));
    assert(restore_spec(c0, t0, root, bp, ts, force) == Ok::<(Map<Seq<char>, FileView>, nat), BackupError>(
        crate::store::restore_copy_state(c0, t0, root, bp, ts),
    ));
}

// ------------------------------------------------------------------
// Conflict protection.

/// An unforced restoration onto a diverged live original is refused with
/// a conflict, and nothing changes.
pub proof fn lemma_conflict_protection(
    c0: Map<Seq<char>, FileView>,
    t0: nat,
    root: Seq<char>,
    bp: Seq<char>,
    ts: Seq<char>,
)
    requires
        restore_precheck(c0, bp) is Ok,
        c0.contains_key(restore_precheck(c0, bp)->Ok_0.original_path),
        sha256_hex(c0[restore_precheck(c0, bp)->Ok_0.original_path].data) != restore_precheck(
            c0,
            bp,
        )->Ok_0.checksum,
    ensures
        restore_spec(c0, t0, root, bp, ts, false) == Err::<
            (Map<Seq<char>, FileView>, nat),
            BackupError,
        >(BackupError::ConflictError),
{
}

// ------------------------------------------------------------------
// Round trip.

/// What one creation leaves behind, seen from outside: the copy and its
/// sidecar in place with the expected bytes, the original untouched, all
/// stamps below the new counter, and no snapshot newer than the copy.
#[verifier::rlimit(100)]
pub proof fn lemma_create_effects(
    c0: Map<Seq<char>, FileView>,
    t0: nat,
    root: Seq<char>,
    path: Seq<char>,
    reason: ReasonView,
    ts: Seq<char>,
)
    requires
        c0.dom().finite(),
        c0.contains_key(path),
        c0[path].kind is Regular,
        stamp_usable(ts),
        !in_dir(path, backup_dir_of(root, path)),
        forall|p: Seq<char>| #[trigger] c0.contains_key(p) ==> c0[p].mtime < t0,
    ensures
        create_spec(c0, t0, root, path, reason, ts) is Ok,
        ({
            let o = create_spec(c0, t0, root, path, reason, ts)->Ok_0;
            let bp = o.2.backup_path;
            let dir = backup_dir_of(root, path);
            &&& o.0.dom().finite()
            &&& o.2.original_path == path
            &&& o.2.checksum == sha256_hex(c0[path].data)
            &&& bp == snapshot_path_of(root, path, ts)
            &&& o.0.contains_key(bp)
            &&& o.0[bp].data == c0[path].data
            &&& o.0[bp].kind is Regular
            &&& o.0.contains_key(sidecar_of(bp))
            &&& o.0[sidecar_of(bp)].data == encode_utf8(metadata_json(o.2))
            &&& o.0.contains_key(path)
            &&& o.0[path] == c0[path]
            &&& (forall|p: Seq<char>| #[trigger] o.0.contains_key(p) ==> o.0[p].mtime < o.1)
            &&& in_dir(bp, dir)
            &&& is_snapshot_file(o.0, dir, bp)
            &&& newer_than(o.0, dir, o.0[bp].mtime) =~= Set::<Seq<char>>::empty()
        }),
{
    let o = create_spec(c0, t0, root, path, reason, ts)->Ok_0;
    let m = o.2;
    let content = c0[path].data;
    let bp = snapshot_path_of(root, path, ts);
    let dir = backup_dir_of(root, path);
    let r1 = with_dir(c0, t0, root);
    let r2 = with_dir(r1.0, r1.1, dir);
    let c3 = r2.0.insert(bp, FileView { kind: FileKind::Regular, data: content, mtime: r2.1 });
    let c4 = c3.insert(
        sidecar_of(bp),
        FileView {
            kind: FileKind::Regular,
            data: encode_utf8(metadata_json(m)),
            mtime: (r2.1 + 1) as nat,
        },
    );
    assert(o.0 == prune_map(c4, dir));
    lemma_snapshot_path_shape(root, path, ts);
    assert(bp != sidecar_of(bp)) by {
        reveal_strlit(".backup.json");
        assert(sidecar_of(bp).len() == bp.len() + 12);
    }

    // No snapshot of the directory is newer than the fresh copy.
    assert(newer_than(c4, dir, c4[bp].mtime) =~= Set::<Seq<char>>::empty()) by {
        reveal_strlit(".backup.json");
        reveal_strlit(".json");
        assert forall|q: Seq<char>| !newer_than(c4, dir, c4[bp].mtime).contains(q) by {
            if newer_than(c4, dir, c4[bp].mtime).contains(q) {
                if q == sidecar_of(bp) {
                    assert(is_snapshot_name(base_name(q)));
                    assert(ends_with_json(base_name(q))) by {
                        lemma_base_name_suffix(bp, ".backup.json"@);
                        let b = base_name(q);
                        assert(b == base_name(bp) + ".backup.json"@);
                        assert(b.skip(b.len() - 5) =~= ".json"@);
                    }
                    assert(false);
                } else if q != bp {
                    assert(c4[q].mtime < t0 || c4[q].kind is Directory) by {
                        assert(c0.contains_key(root) ==> r1.0 == c0);
                        assert(r1.0.contains_key(dir) ==> r2.0 == r1.0);
                    }
                    assert(false);
                } else {
                    assert(false);
                }
            }
        }
    }
    assert(Set::<Seq<char>>::empty().len() == 0);
    lemma_prune_keeps(c4, dir, bp);

    // The original itself is untouched.
    assert(o.0.contains_key(path) && o.0[path] == c0[path]) by {
        assert(path != bp && path != sidecar_of(bp)) by {
            assert(in_dir(bp, dir));
            assert(no_slash(".backup.json"@)) by {
                reveal_strlit(".backup.json");
                assert(forall|i: int|
                    0 <= i < ".backup.json"@.len() ==> (#[trigger] ".backup.json"@[i]) != '/');
            }
            lemma_in_dir_append(bp, dir, ".backup.json"@);
        }
        assert(c4.contains_key(path) && c4[path] == c0[path]) by {
            assert(c0.contains_key(root) ==> r1.0 == c0);
            assert(!c0.contains_key(root) ==> path != root);
            assert(r1.0.contains_key(dir) ==> r2.0 == r1.0);
            assert(!r1.0.contains_key(dir) ==> path != dir);
        }
        assert(!pruned_keys(c4, dir).contains(path)) by {
            if pruned_keys(c4, dir).contains(path) {
                lemma_pruned_keys_in_dir(c4, dir, path);
            }
        }
    }

    // Every stamp stays below the new counter.
    assert forall|p: Seq<char>| #[trigger] o.0.contains_key(p) implies o.0[p].mtime < o.1 by {
        assert(o.0[p] == c4[p]);
        assert(c0.contains_key(root) ==> r1.0 == c0);
        assert(r1.0.contains_key(dir) ==> r2.0 == r1.0);
        if p != bp && p != sidecar_of(bp) {
            if c0.contains_key(p) && c4[p] == c0[p] {
                assert(c0[p].mtime < t0);
            }
        }
    }

    // Survivors of the pruning keep the newer-set empty.
    assert(newer_than(o.0, dir, o.0[bp].mtime) =~= Set::<Seq<char>>::empty()) by {
        assert forall|q: Seq<char>| !newer_than(o.0, dir, o.0[bp].mtime).contains(q) by {
            if newer_than(o.0, dir, o.0[bp].mtime).contains(q) {
                assert(o.0[q] == c4[q]);
                assert(newer_than(c4, dir, c4[bp].mtime).contains(q));
            }
        }
    }

    // The image stays finite.
    assert(o.0.dom().finite()) by {
        assert(c4.dom().finite());
        assert(o.0.dom() =~= o.0.dom().intersect(c4.dom()));
    }
}

/// Round trip: snapshotting a file and then restoring that snapshot
/// leaves the file bit-identical to what it held when the snapshot was
/// taken — even unforced, since nothing diverged in between.
#[verifier::rlimit(100)]
pub proof fn lemma_snapshot_round_trip(
    c0: Map<Seq<char>, FileView>,
    t0: nat,
    root: Seq<char>,
    path: Seq<char>,
    reason: ReasonView,
    ts: Seq<char>,
    ts2: Seq<char>,
)
    requires
        c0.dom().finite(),
        c0.contains_key(path),
        c0[path].kind is Regular,
        stamp_usable(ts),
        stamp_usable(ts2),
        ts != ts2,
        !in_dir(path, backup_dir_of(root, path)),
        forall|p: Seq<char>| #[trigger] c0.contains_key(p) ==> c0[p].mtime < t0,
    ensures
        create_spec(c0, t0, root, path, reason, ts) is Ok,
        ({
            let o = create_spec(c0, t0, root, path, reason, ts)->Ok_0;
            let back = restore_spec(o.0, o.1, root, o.2.backup_path, ts2, false);
            &&& back is Ok
            &&& back->Ok_0.0.contains_key(path)
            &&& back->Ok_0.0[path].data == c0[path].data
        }),
{
    lemma_create_effects(c0, t0, root, path, reason, ts);
    let o = create_spec(c0, t0, root, path, reason, ts)->Ok_0;
    let m = o.2;
    let bp = m.backup_path;
    let dir = backup_dir_of(root, path);

    // The sidecar decodes back to the record that was written.
    assert(restore_precheck(o.0, bp) == Ok::<MetaView, BackupError>(m)) by {
        vstd::utf8::encode_utf8_valid_utf8(metadata_json(m));
        vstd::utf8::encode_utf8_decode_utf8(metadata_json(m));
        lemma_meta_round_trip(m);
        assert(o.0[sidecar_of(bp)].data == encode_utf8(metadata_json(m)));
    }

    // A fresh stamp names a fresh snapshot path.
    assert(bp != snapshot_path_of(root, path, ts2)) by {
        if bp == snapshot_path_of(root, path, ts2) {
            let pre = backup_dir_of(root, path) + "/"@ + base_name(path) + ".backup."@;
            assert(ts =~= ts2) by {
                assert(forall|i: int|
                    0 <= i < ts.len() ==> (pre + ts)[pre.len() + i] == #[trigger] ts[i]);
                assert(forall|i: int|
                    0 <= i < ts2.len() ==> (pre + ts2)[pre.len() + i] == #[trigger] ts2[i]);
            }
            assert(false);
        }
    }

    assert(newer_than(o.0, dir, o.0[bp].mtime).len() == 0);
    assert(sha256_hex(o.0[bp].data) == restore_precheck(o.0, bp)->Ok_0.checksum);
    lemma_restore_succeeds(o.0, o.1, root, bp, ts2, false);
}


// ------------------------------------------------------------------
// Corruption detection.

/// The audit lists a snapshot as corrupted when its bytes no longer
/// match its record.
proof fn lemma_health_scan_corrupt(
    s: Seq<crate::disk::DiskFile>,
    c: Map<Seq<char>, FileView>,
    root: Seq<char>,
    today: int,
    i: int,
)
    requires
        0 <= i < s.len(),
        s[i].kind is Regular,
        crate::store::under_root(s[i].path@, root),
        is_snapshot_name(base_name(s[i].path@)),
        c.contains_key(sidecar_of(s[i].path@)),
        vstd::utf8::valid_utf8(c[sidecar_of(s[i].path@)].data),
        p_meta(decode_utf8(c[sidecar_of(s[i].path@)].data)) is Some,
        sha256_hex(s[i].data@) != p_meta(decode_utf8(c[sidecar_of(s[i].path@)].data))
            ->Some_0.checksum,
    ensures
        crate::audit::health_scan(s, c, root, today).corrupted.contains(s[i].path@),
    decreases s.len(),
{
    let h = crate::audit::health_scan(s, c, root, today);
    if i == s.len() - 1 {
        let prev = crate::audit::health_scan(s.drop_last(), c, root, today);
        assert(h.corrupted == prev.corrupted.push(s[i].path@));
        assert(h.corrupted[h.corrupted.len() - 1] == s[i].path@);
    } else {
        assert(s.drop_last()[i] == s[i]);
        lemma_health_scan_corrupt(s.drop_last(), c, root, today, i);
        let prev = crate::audit::health_scan(s.drop_last(), c, root, today);
        let k = choose|k: int| 0 <= k < prev.corrupted.len() && prev.corrupted[k] == s[i].path@;
        assert(h.corrupted.len() >= prev.corrupted.len());
        assert(h.corrupted[k] == s[i].path@);
    }
}

/// The drill records at least one failure when some snapshot's bytes no
/// longer match its record.
proof fn lemma_drill_scan_fails(
    s: Seq<crate::disk::DiskFile>,
    c: Map<Seq<char>, FileView>,
    root: Seq<char>,
    i: int,
)
    requires
        0 <= i < s.len(),
        s[i].kind is Regular,
        crate::store::under_root(s[i].path@, root),
        is_snapshot_name(base_name(s[i].path@)),
        c.contains_key(sidecar_of(s[i].path@)),
        vstd::utf8::valid_utf8(c[sidecar_of(s[i].path@)].data),
        p_meta(decode_utf8(c[sidecar_of(s[i].path@)].data)) is Some,
        sha256_hex(s[i].data@) != p_meta(decode_utf8(c[sidecar_of(s[i].path@)].data))
            ->Some_0.checksum,
    ensures
        crate::audit::drill_scan(s, c, root).failed.len() > 0,
    decreases s.len(),
{
    if i == s.len() - 1 {
    } else {
        assert(s.drop_last()[i] == s[i]);
        lemma_drill_scan_fails(s.drop_last(), c, root, i);
    }
}

/// Corruption detection: a snapshot whose bytes diverge from its sidecar
/// record is classified corrupted, the audit is then unhealthy, and the
/// drill reports at least one failure.
pub proof fn lemma_corruption_detected(
    s: Seq<crate::disk::DiskFile>,
    c: Map<Seq<char>, FileView>,
    root: Seq<char>,
    today: int,
    i: int,
)
    requires
        c.contains_key(root),
        0 <= i < s.len(),
        s[i].kind is Regular,
        crate::store::under_root(s[i].path@, root),
        is_snapshot_name(base_name(s[i].path@)),
        c.contains_key(sidecar_of(s[i].path@)),
        vstd::utf8::valid_utf8(c[sidecar_of(s[i].path@)].data),
        p_meta(decode_utf8(c[sidecar_of(s[i].path@)].data)) is Some,
        sha256_hex(s[i].data@) != p_meta(decode_utf8(c[sidecar_of(s[i].path@)].data))
            ->Some_0.checksum,
    ensures
        crate::audit::health_spec(s, c, root, today).corrupted.contains(s[i].path@),
        !(crate::audit::health_spec(s, c, root, today).corrupted.len() == 0
            && crate::audit::health_spec(s, c, root, today).errors.len() == 0
            && crate::audit::health_spec(s, c, root, today).healthy > 0),
        crate::audit::drill_spec(s, c, root).failed.len() > 0,
{
    lemma_health_scan_corrupt(s, c, root, today, i);
    lemma_drill_scan_fails(s, c, root, i);
    let h = crate::audit::health_spec(s, c, root, today);
    let k = choose|k: int| 0 <= k < h.corrupted.len() && h.corrupted[k] == s[i].path@;
    assert(h.corrupted.len() > 0);
}


// ------------------------------------------------------------------
// Retention after a creation.

/// Retention invariant at the operation level: right after a snapshot is
/// created, its backup directory holds at most the retention count of
/// snapshots, and the fresh snapshot is among them.
#[verifier::rlimit(100)]
pub proof fn lemma_create_bounds_retention(
    c0: Map<Seq<char>, FileView>,
    t0: nat,
    root: Seq<char>,
    path: Seq<char>,
    reason: ReasonView,
    ts: Seq<char>,
)
    requires
        c0.dom().finite(),
        stamp_usable(ts),
        forall|p: Seq<char>| #[trigger] c0.contains_key(p) ==> c0[p].mtime < t0,
        forall|p: Seq<char>, q: Seq<char>|
            #[trigger] c0.contains_key(p) && #[trigger] c0.contains_key(q) && p != q
                ==> c0[p].mtime != c0[q].mtime,
    ensures
        match create_spec(c0, t0, root, path, reason, ts) {
            Ok(o) => snapshot_set(o.0, backup_dir_of(root, path)).len() <= MAX_BACKUPS_PER_FILE,
            Err(_) => true,
        },
{
    if create_spec(c0, t0, root, path, reason, ts) is Ok {
        let o = create_spec(c0, t0, root, path, reason, ts)->Ok_0;
        let content = c0[path].data;
        let bp = snapshot_path_of(root, path, ts);
        let m = o.2;
        let dir = backup_dir_of(root, path);
        let r1 = with_dir(c0, t0, root);
        let r2 = with_dir(r1.0, r1.1, dir);
        let c3 = r2.0.insert(
            bp,
            FileView { kind: FileKind::Regular, data: content, mtime: r2.1 },
        );
        let c4 = c3.insert(
            sidecar_of(bp),
            FileView {
                kind: FileKind::Regular,
                data: encode_utf8(metadata_json(m)),
                mtime: (r2.1 + 1) as nat,
            },
        );
        assert(o.0 == prune_map(c4, dir));
        assert(c4.dom().finite());
        // Distinct snapshots of the new image carry distinct stamps: the
        // untouched ones did before, the fresh copy is stamped later than
        // all of them, and nothing else in the image is a snapshot.
        assert forall|p: Seq<char>, q: Seq<char>|
            is_snapshot_file(c4, dir, p) && is_snapshot_file(c4, dir, q) && p != q implies (
        #[trigger] c4[p]).mtime != (#[trigger] c4[q]).mtime by {
            assert(c0.contains_key(root) ==> r1.0 == c0);
            assert(r1.0.contains_key(dir) ==> r2.0 == r1.0);
            assert(!is_snapshot_file(c4, dir, sidecar_of(bp))) by {
                reveal_strlit(".backup.json");
                reveal_strlit(".json");
                lemma_snapshot_path_shape(root, path, ts);
                lemma_base_name_suffix(bp, ".backup.json"@);
                let b = base_name(sidecar_of(bp));
                assert(b == base_name(bp) + ".backup.json"@);
                assert(b.skip(b.len() - 5) =~= ".json"@);
            }
            if p != bp && q != bp {
                assert(c0.contains_key(p) && c4[p] == c0[p]) by {
                    if !c0.contains_key(root) && p == root {
                        assert(c4[p].kind is Directory);
                    }
                    if !r1.0.contains_key(dir) && p == dir {
                        assert(c4[p].kind is Directory);
                    }
                }
                assert(c0.contains_key(q) && c4[q] == c0[q]) by {
                    if !c0.contains_key(root) && q == root {
                        assert(c4[q].kind is Directory);
                    }
                    if !r1.0.contains_key(dir) && q == dir {
                        assert(c4[q].kind is Directory);
                    }
                }
            } else if p == bp {
                assert(c4[p].mtime == r2.1);
                assert(c0.contains_key(q) && c4[q] == c0[q] && c0[q].mtime < t0) by {
                    if !c0.contains_key(root) && q == root {
                        assert(c4[q].kind is Directory);
                    }
                    if !r1.0.contains_key(dir) && q == dir {
                        assert(c4[q].kind is Directory);
                    }
                }
            } else {
                assert(c4[q].mtime == r2.1);
                assert(c0.contains_key(p) && c4[p] == c0[p] && c0[p].mtime < t0) by {
                    if !c0.contains_key(root) && p == root {
                        assert(c4[p].kind is Directory);
                    }
                    if !r1.0.contains_key(dir) && p == dir {
                        assert(c4[p].kind is Directory);
                    }
                }
            }
        }
        lemma_retention_invariant(c4, dir);
    }
}


// ------------------------------------------------------------------
// Retention, exactly.

/// An injective map preserves cardinality.
proof fn lemma_image_card<A, B>(s: Set<A>, f: spec_fn(A) -> B)
    requires
        s.finite(),
        forall|x: A, y: A|
            s.contains(x) && s.contains(y) && x != y ==> #[trigger] f(x) != #[trigger] f(y),
    ensures
        s.map(f).finite(),
        s.map(f).len() == s.len(),
    decreases s.len(),
{
    broadcast use vstd::set_lib::lemma_set_empty_equivalency_len;

    s.lemma_map_finite(f);
    if s.len() == 0 {
        s.lemma_len0_is_empty();
        assert forall|y: B| !(#[trigger] s.map(f).contains(y)) by {
            if s.map(f).contains(y) {
                let x = choose|x: A| s.contains(x) && y == f(x);
            }
        }
        assert(s.map(f) =~= Set::<B>::empty());
    } else {
        let x = choose|x: A| s.contains(x);
        let rest = s.remove(x);
        lemma_image_card(rest, f);
        assert(s.map(f) =~= rest.map(f).insert(f(x))) by {
            assert forall|y: B| #[trigger] s.map(f).contains(y) implies rest.map(f).insert(
                f(x),
            ).contains(y) by {
                let z = choose|z: A| s.contains(z) && y == f(z);
                if z != x {
                    assert(rest.contains(z));
                    assert(rest.map(f).contains(y));
                }
            }
            assert forall|y: B| rest.map(f).insert(f(x)).contains(y) implies #[trigger] s.map(
                f,
            ).contains(y) by {
                if rest.map(f).contains(y) {
                    let z = choose|z: A| rest.contains(z) && y == f(z);
                    assert(s.contains(z));
                } else {
                    assert(s.contains(x));
                }
            }
        }
        assert(!rest.map(f).contains(f(x))) by {
            if rest.map(f).contains(f(x)) {
                let z = choose|z: A| rest.contains(z) && f(x) == f(z);
                assert(s.contains(z) && z != x);
            }
        }
    }
}

/// A subset of a finite set with the same size is the whole set.
proof fn lemma_subset_full<A>(s: Set<A>, t: Set<A>)
    requires
        s.finite(),
        t.finite(),
        s.subset_of(t),
        s.len() == t.len(),
    ensures
        s =~= t,
{
    assert forall|x: A| t.contains(x) implies s.contains(x) by {
        if !s.contains(x) {
            assert(s.subset_of(t.remove(x)));
            lemma_len_subset(s, t.remove(x));
        }
    }
}

/// Retention is exact: when a directory holds more snapshots than the
/// retention count, pruning leaves exactly the count; otherwise it
/// leaves them all.  Every snapshot past the count is gone.
#[verifier::rlimit(100)]
pub proof fn lemma_retention_exact(c: Map<Seq<char>, FileView>, dir: Seq<char>)
    requires
        c.dom().finite(),
        forall|p: Seq<char>, q: Seq<char>|
            is_snapshot_file(c, dir, p) && is_snapshot_file(c, dir, q) && p != q ==> (
            #[trigger] c[p]).mtime != (#[trigger] c[q]).mtime,
    ensures
        snapshot_set(prune_map(c, dir), dir).len() == (
        if snapshot_set(c, dir).len() <= MAX_BACKUPS_PER_FILE {
            snapshot_set(c, dir).len()
        } else {
            MAX_BACKUPS_PER_FILE as nat
        }),
        forall|p: Seq<char>|
            #[trigger] snapshot_set(prune_map(c, dir), dir).contains(p) <==> (is_snapshot_file(
                c,
                dir,
                p,
            ) && newer_than(c, dir, c[p].mtime).len() < MAX_BACKUPS_PER_FILE),
        forall|p: Seq<char>| is_victim(c, dir, p) ==> !prune_map(c, dir).contains_key(p),
{
    let s = snapshot_set(c, dir);
    let sv = snapshot_set(prune_map(c, dir), dir);
    let n = s.len();
    let f = |p: Seq<char>| newer_than(c, dir, c[p].mtime).len() as int;

    assert(s.finite()) by {
        assert(s =~= c.dom().intersect(s));
    }

    // Each snapshot's newer-set is a subset of the others, so its count
    // is below the total, and counts are pairwise distinct.
    assert forall|p: Seq<char>| s.contains(p) implies 0 <= #[trigger] f(p) < n by {
        let np = newer_than(c, dir, c[p].mtime);
        assert(np.finite()) by {
            assert(np =~= c.dom().intersect(np));
        }
        assert(np.subset_of(s.remove(p)));
        lemma_len_subset(np, s.remove(p));
    }
    assert forall|p: Seq<char>, q: Seq<char>|
        s.contains(p) && s.contains(q) && p != q implies #[trigger] f(p) != #[trigger] f(q) by {
        if c[p].mtime < c[q].mtime {
            lemma_newer_count_strict(c, dir, p, q);
        } else {
            lemma_newer_count_strict(c, dir, q, p);
        }
    }

    // The counts of all snapshots fill the range below the total.
    lemma_image_card(s, f);
    lemma_int_range(0, n as int);
    assert(s.map(f).subset_of(set_int_range(0, n as int))) by {
        assert forall|y: int| s.map(f).contains(y) implies set_int_range(0, n as int).contains(
            y,
        ) by {
            let p = choose|p: Seq<char>| s.contains(p) && y == f(p);
        }
    }
    lemma_subset_full(s.map(f), set_int_range(0, n as int));

    // The survivors are exactly the snapshots with fewer than the
    // retention count of newer peers.
    assert forall|p: Seq<char>| sv.contains(p) implies s.contains(p) && #[trigger] f(p)
        < MAX_BACKUPS_PER_FILE by {
        assert(prune_map(c, dir).contains_key(p));
        assert(c.contains_key(p) && prune_map(c, dir)[p] == c[p]);
        assert(!pruned_keys(c, dir).contains(p));
        if is_victim(c, dir, p) {
            assert(victims(c, dir).contains(p));
        }
    }
    assert forall|p: Seq<char>|
        s.contains(p) && #[trigger] f(p) < MAX_BACKUPS_PER_FILE implies sv.contains(p) by {
        lemma_prune_keeps(c, dir, p);
    }
    assert(sv.finite()) by {
        assert(sv =~= s.intersect(sv));
    }

    // Their counts fill the range below the minimum.
    let m: nat = if n <= MAX_BACKUPS_PER_FILE {
        n
    } else {
        MAX_BACKUPS_PER_FILE as nat
    };
    lemma_image_card(sv, f);
    lemma_int_range(0, m as int);
    assert(sv.map(f) =~= set_int_range(0, m as int)) by {
        assert forall|y: int| sv.map(f).contains(y) implies set_int_range(0, m as int).contains(
            y,
        ) by {
            let p = choose|p: Seq<char>| sv.contains(p) && y == f(p);
        }
        assert forall|y: int| set_int_range(0, m as int).contains(y) implies sv.map(f).contains(
            y,
        ) by {
            assert(set_int_range(0, n as int).contains(y));
            assert(s.map(f).contains(y));
            let p = choose|p: Seq<char>| s.contains(p) && y == f(p);
            assert(sv.contains(p));
            assert(sv.map(f).contains(f(p)));
        }
    }
    assert(sv.len() == m);

    assert forall|p: Seq<char>| is_victim(c, dir, p) implies !prune_map(c, dir).contains_key(
        p,
    ) by {
        assert(victims(c, dir).contains(p));
        assert(pruned_keys(c, dir).contains(p));
    }
    assert forall|p: Seq<char>|
        #[trigger] sv.contains(p) <==> (is_snapshot_file(c, dir, p) && newer_than(
            c,
            dir,
            c[p].mtime,
        ).len() < MAX_BACKUPS_PER_FILE) by {
        if sv.contains(p) {
            assert(s.contains(p) && f(p) < MAX_BACKUPS_PER_FILE);
        }
        if is_snapshot_file(c, dir, p) && newer_than(c, dir, c[p].mtime).len()
            < MAX_BACKUPS_PER_FILE {
            assert(s.contains(p));
            assert(f(p) < MAX_BACKUPS_PER_FILE);
            assert(sv.contains(p));
        }
    }
}

/// Retention after one creation, exactly: with a fresh snapshot path,
/// the backup directory ends with one more snapshot than before, capped
/// at the retention count, and every snapshot past the count is gone.
#[verifier::rlimit(100)]
pub proof fn lemma_create_retention_exact(
    c0: Map<Seq<char>, FileView>,
    t0: nat,
    root: Seq<char>,
    path: Seq<char>,
    reason: ReasonView,
    ts: Seq<char>,
)
    requires
        c0.dom().finite(),
        stamp_usable(ts),
        !c0.contains_key(snapshot_path_of(root, path, ts)),
        forall|p: Seq<char>| #[trigger] c0.contains_key(p) ==> c0[p].mtime < t0,
        forall|p: Seq<char>, q: Seq<char>|
            is_snapshot_file(c0, backup_dir_of(root, path), p) && is_snapshot_file(
                c0,
                backup_dir_of(root, path),
                q,
            ) && p != q ==> (#[trigger] c0[p]).mtime != (#[trigger] c0[q]).mtime,
    ensures
        match create_spec(c0, t0, root, path, reason, ts) {
            Ok(o) => ({
                let dir = backup_dir_of(root, path);
                let bp = snapshot_path_of(root, path, ts);
                &&& snapshot_set(o.0, dir).len() == (
                if snapshot_set(c0, dir).len() + 1 <= MAX_BACKUPS_PER_FILE {
                    snapshot_set(c0, dir).len() + 1
                } else {
                    MAX_BACKUPS_PER_FILE as nat
                })
                &&& (forall|q: Seq<char>|
                    #[trigger] snapshot_set(o.0, dir).contains(q) ==> q == bp || (
                    is_snapshot_file(c0, dir, q) && o.0[q] == c0[q]))
                &&& (o.0.contains_key(bp) ==> o.0[bp].mtime >= t0)
            }),
            Err(_) => true,
        },
{
    if create_spec(c0, t0, root, path, reason, ts) is Ok {
        let o = create_spec(c0, t0, root, path, reason, ts)->Ok_0;
        let content = c0[path].data;
        let bp = snapshot_path_of(root, path, ts);
        let m = o.2;
        let dir = backup_dir_of(root, path);
        let r1 = with_dir(c0, t0, root);
        let r2 = with_dir(r1.0, r1.1, dir);
        let c3 = r2.0.insert(
            bp,
            FileView { kind: FileKind::Regular, data: content, mtime: r2.1 },
        );
        let c4 = c3.insert(
            sidecar_of(bp),
            FileView {
                kind: FileKind::Regular,
                data: encode_utf8(metadata_json(m)),
                mtime: (r2.1 + 1) as nat,
            },
        );
        assert(o.0 == prune_map(c4, dir));
        lemma_snapshot_path_shape(root, path, ts);
        assert(!is_snapshot_name(base_name(sidecar_of(bp)))) by {
            reveal_strlit(".backup.json");
            reveal_strlit(".json");
            lemma_base_name_suffix(bp, ".backup.json"@);
            let b = base_name(sidecar_of(bp));
            assert(b == base_name(bp) + ".backup.json"@);
            assert(b.skip(b.len() - 5) =~= ".json"@);
        }
        assert(c0.contains_key(root) ==> r1.0 == c0);
        assert(r1.0.contains_key(dir) ==> r2.0 == r1.0);
        assert(bp != sidecar_of(bp)) by {
            reveal_strlit(".backup.json");
            assert(sidecar_of(bp).len() == bp.len() + 12);
        }

        // The new image's snapshots of the directory are the old ones
        // plus the fresh copy.
        assert(snapshot_set(c4, dir) =~= snapshot_set(c0, dir).insert(bp)) by {
            assert forall|q: Seq<char>| snapshot_set(c4, dir).contains(q) implies snapshot_set(
                c0,
                dir,
            ).insert(bp).contains(q) by {
                if q != bp {
                    assert(q != sidecar_of(bp));
                    if !c0.contains_key(root) && q == root {
                        assert(c4[q].kind is Directory);
                    }
                    if !r1.0.contains_key(dir) && q == dir {
                        assert(c4[q].kind is Directory);
                    }
                    assert(c0.contains_key(q) && c4[q] == c0[q]);
                }
            }
            assert forall|q: Seq<char>| snapshot_set(c0, dir).insert(bp).contains(q) implies
                snapshot_set(c4, dir).contains(q) by {
                if q == bp {
                    assert(c4.contains_key(bp) && c4[bp].kind is Regular);
                } else {
                    assert(q != sidecar_of(bp));
                    assert(c4[q] == c0[q]);
                }
            }
        }
        assert(snapshot_set(c0, dir).finite()) by {
            assert(snapshot_set(c0, dir) =~= c0.dom().intersect(snapshot_set(c0, dir)));
        }
        assert(!snapshot_set(c0, dir).contains(bp));
        assert(snapshot_set(c4, dir).len() == snapshot_set(c0, dir).len() + 1);

        // Distinct snapshots of the new image carry distinct stamps.
        assert forall|p: Seq<char>, q: Seq<char>|
            is_snapshot_file(c4, dir, p) && is_snapshot_file(c4, dir, q) && p != q implies (
        #[trigger] c4[p]).mtime != (#[trigger] c4[q]).mtime by {
            if p != bp && q != bp {
                assert(p != sidecar_of(bp) && q != sidecar_of(bp));
                if !c0.contains_key(root) && p == root {
                    assert(c4[p].kind is Directory);
                }
                if !r1.0.contains_key(dir) && p == dir {
                    assert(c4[p].kind is Directory);
                }
                if !c0.contains_key(root) && q == root {
                    assert(c4[q].kind is Directory);
                }
                if !r1.0.contains_key(dir) && q == dir {
                    assert(c4[q].kind is Directory);
                }
                assert(c4[p] == c0[p] && c4[q] == c0[q]);
                assert(is_snapshot_file(c0, dir, p) && is_snapshot_file(c0, dir, q));
            } else if p == bp {
                assert(q != sidecar_of(bp));
                if !c0.contains_key(root) && q == root {
                    assert(c4[q].kind is Directory);
                }
                if !r1.0.contains_key(dir) && q == dir {
                    assert(c4[q].kind is Directory);
                }
                assert(c4[q] == c0[q] && c0[q].mtime < t0);
                assert(c4[p].mtime == r2.1);
            } else {
                assert(p != sidecar_of(bp));
                if !c0.contains_key(root) && p == root {
                    assert(c4[p].kind is Directory);
                }
                if !r1.0.contains_key(dir) && p == dir {
                    assert(c4[p].kind is Directory);
                }
                assert(c4[p] == c0[p] && c0[p].mtime < t0);
                assert(c4[q].mtime == r2.1);
            }
        }
        assert(c4.dom().finite());
        lemma_retention_exact(c4, dir);
        assert forall|q: Seq<char>| #[trigger] snapshot_set(o.0, dir).contains(q) implies q == bp
            || (is_snapshot_file(c0, dir, q) && o.0[q] == c0[q]) by {
            assert(o.0.contains_key(q) && o.0[q] == c4[q]);
            assert(is_snapshot_file(c4, dir, q));
            assert(snapshot_set(c4, dir).contains(q));
            if q != bp {
                assert(snapshot_set(c0, dir).contains(q));
            }
        }
        if o.0.contains_key(bp) {
            assert(o.0[bp] == c4[bp]);
        }
    }
}


// ------------------------------------------------------------------
// Creation keeps every file small enough to digest.

/// The name part of a path is never longer than the path.
proof fn lemma_base_name_len(p: Seq<char>)
    ensures
        base_name(p).len() <= p.len(),
    decreases p.len(),
{
    if p.len() > 0 && p.last() != '/' {
        lemma_base_name_len(p.drop_last());
    }
}

/// The sanitised path is never longer than the path.
proof fn lemma_sanitized_len(p: Seq<char>)
    ensures
        crate::text::sanitized(p).len() <= p.len(),
{
    let m = crate::text::separators_replaced(p);
    crate::text::lemma_trim_lead(m);
}

/// Creation preserves the digest ceiling: the copy is as large as its
/// source, the fresh sidecar is a fixed frame around modest names, the
/// directory entries are empty, and pruning only removes.
#[verifier::rlimit(100)]
pub proof fn lemma_create_preserves_sizes(
    c0: Map<Seq<char>, FileView>,
    t0: nat,
    root: Seq<char>,
    path: Seq<char>,
    reason: ReasonView,
    ts: Seq<char>,
)
    requires
        crate::store::sizes_ok(c0),
        root.len() < 0x4000000000000,
        path.len() < 0x4000000000000,
        ts.len() < 0x4000000000000,
        crate::meta::reason_payload(reason) < 0x4000000000000,
    ensures
        match create_spec(c0, t0, root, path, reason, ts) {
            Ok(o) => crate::store::sizes_ok(o.0),
            Err(_) => true,
        },
{
    if create_spec(c0, t0, root, path, reason, ts) is Ok {
        let o = create_spec(c0, t0, root, path, reason, ts)->Ok_0;
        let content = c0[path].data;
        let bp = snapshot_path_of(root, path, ts);
        let m = o.2;
        let dir = backup_dir_of(root, path);
        let r1 = with_dir(c0, t0, root);
        let r2 = with_dir(r1.0, r1.1, dir);
        let c3 = r2.0.insert(
            bp,
            FileView { kind: FileKind::Regular, data: content, mtime: r2.1 },
        );
        let c4 = c3.insert(
            sidecar_of(bp),
            FileView {
                kind: FileKind::Regular,
                data: encode_utf8(metadata_json(m)),
                mtime: (r2.1 + 1) as nat,
            },
        );
        assert(o.0 == prune_map(c4, dir));

        // The sidecar's byte count: four bytes a character, a fixed
        // frame, and at most twice each of the modest name fields.
        assert(c4[sidecar_of(bp)].data.len() < 0x2000000000000000) by {
            crate::meta::lemma_metadata_json_len(m);
            crate::meta::lemma_encode_utf8_len(metadata_json(m));
            lemma_base_name_len(path);
            lemma_sanitized_len(path);
            crate::digest::lemma_sha256_hex_len(content);
            assert(m.checksum.len() == 64);
            assert(dir.len() <= root.len() + 1 + path.len()) by {
                reveal_strlit("/");
            }
            assert(bp.len() <= dir.len() + 1 + path.len() + 8 + ts.len()) by {
                reveal_strlit(".backup.");
                reveal_strlit("/");
            }
        }

        assert forall|q: Seq<char>| #[trigger] o.0.contains_key(q) implies o.0[q].data.len()
            < 0x2000000000000000 by {
            assert(c4.contains_key(q) && o.0[q] == c4[q]);
            if q != bp && q != sidecar_of(bp) {
                assert(c0.contains_key(root) ==> r1.0 == c0);
                assert(r1.0.contains_key(dir) ==> r2.0 == r1.0);
                if !c0.contains_key(root) && q == root {
                    assert(c4[q].data.len() == 0);
                } else if !r1.0.contains_key(dir) && q == dir {
                    assert(c4[q].data.len() == 0);
                } else {
                    assert(c0.contains_key(q) && c4[q] == c0[q]);
                }
            } else if q == bp {
                assert(bp != sidecar_of(bp)) by {
                    reveal_strlit(".backup.json");
                    assert(sidecar_of(bp).len() == bp.len() + 12);
                }
                assert(c4[q].data == content);
            }
        }
    }
}


// ------------------------------------------------------------------
// Retention over a whole history of creations.

/// The image after a sequence of snapshot creations of one original,
/// one per stamp, in order.
pub open spec fn create_many(
    c0: Map<Seq<char>, FileView>,
    t0: nat,
    root: Seq<char>,
    path: Seq<char>,
    reason: ReasonView,
    stamps: Seq<Seq<char>>,
) -> (Map<Seq<char>, FileView>, nat)
    decreases stamps.len(),
{
    if stamps.len() == 0 {
        (c0, t0)
    } else {
        let prev = create_many(c0, t0, root, path, reason, stamps.drop_last());
        match create_spec(prev.0, prev.1, root, path, reason, stamps.last()) {
            Ok(o) => (o.0, o.1),
            Err(_) => prev,
        }
    }
}

/// One creation, from a state where the backup directory holds only
/// earlier snapshots and sidecars of the same original: the creation
/// succeeds, every invariant survives, the directory gains the fresh
/// copy and sidecar, and the snapshot count steps up to the cap.
#[verifier::rlimit(100)]
proof fn lemma_history_step(
    c: Map<Seq<char>, FileView>,
    t: nat,
    root: Seq<char>,
    path: Seq<char>,
    reason: ReasonView,
    ts: Seq<char>,
)
    requires
        c.dom().finite(),
        c.contains_key(path),
        c[path].kind is Regular,
        stamp_usable(ts),
        !in_dir(path, backup_dir_of(root, path)),
        !c.contains_key(snapshot_path_of(root, path, ts)),
        forall|p: Seq<char>| #[trigger] c.contains_key(p) ==> c[p].mtime < t,
        forall|p: Seq<char>, q: Seq<char>|
            is_snapshot_file(c, backup_dir_of(root, path), p) && is_snapshot_file(
                c,
                backup_dir_of(root, path),
                q,
            ) && p != q ==> (#[trigger] c[p]).mtime != (#[trigger] c[q]).mtime,
    ensures
        create_spec(c, t, root, path, reason, ts) is Ok,
        ({
            let o = create_spec(c, t, root, path, reason, ts)->Ok_0;
            let dir = backup_dir_of(root, path);
            let bp = snapshot_path_of(root, path, ts);
            &&& o.0.dom().finite()
            &&& o.0.contains_key(path)
            &&& o.0[path] == c[path]
            &&& (forall|p: Seq<char>| #[trigger] o.0.contains_key(p) ==> o.0[p].mtime < o.1)
            &&& (forall|p: Seq<char>, q: Seq<char>|
                is_snapshot_file(o.0, dir, p) && is_snapshot_file(o.0, dir, q) && p != q ==> (
                #[trigger] o.0[p]).mtime != (#[trigger] o.0[q]).mtime)
            &&& (forall|q: Seq<char>|
                #[trigger] o.0.contains_key(q) && in_dir(q, dir) ==> q == bp || q == sidecar_of(
                    bp,
                ) || c.contains_key(q))
            &&& snapshot_set(o.0, dir).len() == (
            if snapshot_set(c, dir).len() + 1 <= MAX_BACKUPS_PER_FILE {
                snapshot_set(c, dir).len() + 1
            } else {
                MAX_BACKUPS_PER_FILE as nat
            })
        }),
{
    lemma_create_effects(c, t, root, path, reason, ts);
    lemma_create_retention_exact(c, t, root, path, reason, ts);
    let o = create_spec(c, t, root, path, reason, ts)->Ok_0;
    let content = c[path].data;
    let bp = snapshot_path_of(root, path, ts);
    let m = o.2;
    let dir = backup_dir_of(root, path);
    let r1 = with_dir(c, t, root);
    let r2 = with_dir(r1.0, r1.1, dir);
    let c3 = r2.0.insert(bp, FileView { kind: FileKind::Regular, data: content, mtime: r2.1 });
    let c4 = c3.insert(
        sidecar_of(bp),
        FileView {
            kind: FileKind::Regular,
            data: encode_utf8(metadata_json(m)),
            mtime: (r2.1 + 1) as nat,
        },
    );
    assert(o.0 == prune_map(c4, dir));
    assert(c.contains_key(root) ==> r1.0 == c);
    assert(r1.0.contains_key(dir) ==> r2.0 == r1.0);
    assert(bp != sidecar_of(bp)) by {
        reveal_strlit(".backup.json");
        assert(sidecar_of(bp).len() == bp.len() + 12);
    }

    // Snapshots of the new image are the old survivors, whose stamps lie
    // below the old counter, plus the fresh copy stamped at or above it.
    assert forall|p: Seq<char>, q: Seq<char>|
        is_snapshot_file(o.0, dir, p) && is_snapshot_file(o.0, dir, q) && p != q implies (
    #[trigger] o.0[p]).mtime != (#[trigger] o.0[q]).mtime by {
        assert(snapshot_set(o.0, dir).contains(p));
        assert(snapshot_set(o.0, dir).contains(q));
        if p != bp && q != bp {
            assert(is_snapshot_file(c, dir, p) && o.0[p] == c[p]);
            assert(is_snapshot_file(c, dir, q) && o.0[q] == c[q]);
        } else if p == bp {
            assert(is_snapshot_file(c, dir, q) && o.0[q] == c[q]);
            assert(c[q].mtime < t);
            assert(o.0[p].mtime >= t);
        } else {
            assert(is_snapshot_file(c, dir, p) && o.0[p] == c[p]);
            assert(c[p].mtime < t);
            assert(o.0[q].mtime >= t);
        }
    }

    // New keys in the directory are only the copy and its sidecar.
    assert forall|q: Seq<char>|
        #[trigger] o.0.contains_key(q) && in_dir(q, dir) implies q == bp || q == sidecar_of(bp)
            || c.contains_key(q) by {
        if q != bp && q != sidecar_of(bp) {
            if !c.contains_key(root) && q == root {
                assert(in_dir(root, dir));
                assert(dir.len() >= root.len() + 1) by {
                    reveal_strlit("/");
                }
                assert(false);
            }
            if !r1.0.contains_key(dir) && q == dir {
                assert(in_dir(dir, dir));
                assert(false);
            }
        }
    }
}



/// Whether `q` is one of the snapshots named by the first `n` stamps,
/// or one of their sidecars.
pub open spec fn named_by_stamps(
    q: Seq<char>,
    root: Seq<char>,
    path: Seq<char>,
    stamps: Seq<Seq<char>>,
) -> bool {
    exists|j: int|
        0 <= j < stamps.len() && (q == #[trigger] snapshot_path_of(root, path, stamps[j]) || q
            == sidecar_of(snapshot_path_of(root, path, stamps[j])))
}

/// Retention over a whole history: starting from an image that holds
/// nothing in the file's backup directory, a run of creations with
/// pairwise distinct stamps leaves exactly one snapshot per creation,
/// capped at the retention count.
#[verifier::rlimit(100)]
pub proof fn lemma_retention_history(
    c0: Map<Seq<char>, FileView>,
    t0: nat,
    root: Seq<char>,
    path: Seq<char>,
    reason: ReasonView,
    stamps: Seq<Seq<char>>,
)
    requires
        c0.dom().finite(),
        c0.contains_key(path),
        c0[path].kind is Regular,
        !in_dir(path, backup_dir_of(root, path)),
        forall|p: Seq<char>| #[trigger] c0.contains_key(p) ==> c0[p].mtime < t0,
        forall|q: Seq<char>|
            #[trigger] c0.contains_key(q) ==> !in_dir(q, backup_dir_of(root, path)),
        forall|j: int| 0 <= j < stamps.len() ==> stamp_usable(#[trigger] stamps[j]),
        forall|j: int, k: int|
            0 <= j < k < stamps.len() ==> (#[trigger] stamps[j]) != (#[trigger] stamps[k]),
    ensures
        ({
            let r = create_many(c0, t0, root, path, reason, stamps);
            let dir = backup_dir_of(root, path);
            &&& snapshot_set(r.0, dir).len() == (if stamps.len() <= MAX_BACKUPS_PER_FILE {
                stamps.len()
            } else {
                MAX_BACKUPS_PER_FILE as nat
            })
            &&& r.0.dom().finite()
            &&& r.0.contains_key(path)
            &&& r.0[path] == c0[path]
            &&& (forall|p: Seq<char>| #[trigger] r.0.contains_key(p) ==> r.0[p].mtime < r.1)
            &&& (forall|p: Seq<char>, q: Seq<char>|
                is_snapshot_file(r.0, dir, p) && is_snapshot_file(r.0, dir, q) && p != q ==> (
                #[trigger] r.0[p]).mtime != (#[trigger] r.0[q]).mtime)
            &&& (forall|q: Seq<char>|
                #[trigger] r.0.contains_key(q) && in_dir(q, dir) ==> named_by_stamps(
                    q,
                    root,
                    path,
                    stamps,
                ))
        }),
    decreases stamps.len(),
{
    let dir = backup_dir_of(root, path);
    if stamps.len() == 0 {
        assert(snapshot_set(c0, dir) =~= Set::<Seq<char>>::empty()) by {
            assert forall|q: Seq<char>| !snapshot_set(c0, dir).contains(q) by {
                if snapshot_set(c0, dir).contains(q) {
                    assert(c0.contains_key(q) && in_dir(q, dir));
                }
            }
        }
        assert(Set::<Seq<char>>::empty().len() == 0);
    } else {
        let head = stamps.drop_last();
        let ts = stamps.last();
        assert(forall|j: int| 0 <= j < head.len() ==> #[trigger] head[j] == stamps[j]);
        lemma_retention_history(c0, t0, root, path, reason, head);
        let prev = create_many(c0, t0, root, path, reason, head);
        let bp = snapshot_path_of(root, path, ts);
        lemma_snapshot_path_shape(root, path, ts);

        // The fresh stamp names a path no earlier step produced.
        assert(!prev.0.contains_key(bp)) by {
            if prev.0.contains_key(bp) {
                assert(in_dir(bp, dir));
                assert(named_by_stamps(bp, root, path, head));
                let j = choose|j: int|
                    0 <= j < head.len() && (bp == #[trigger] snapshot_path_of(
                        root,
                        path,
                        head[j],
                    ) || bp == sidecar_of(snapshot_path_of(root, path, head[j])));
                let bpj = snapshot_path_of(root, path, head[j]);
                if bp == bpj {
                    let pre = backup_dir_of(root, path) + "/"@ + base_name(path) + ".backup."@;
                    assert(ts =~= head[j]) by {
                        assert(forall|i: int|
                            0 <= i < ts.len() ==> (pre + ts)[pre.len() + i] == #[trigger] ts[i]);
                        assert(forall|i: int|
                            0 <= i < head[j].len() ==> (pre + head[j])[pre.len() + i]
                                == #[trigger] head[j][i]);
                    }
                    assert(stamps[j] == stamps[stamps.len() - 1]);
                    assert(false);
                } else {
                    lemma_snapshot_path_shape(root, path, head[j]);
                    assert(is_snapshot_name(base_name(bp)));
                    assert(ends_with_json(base_name(bp))) by {
                        reveal_strlit(".backup.json");
                        reveal_strlit(".json");
                        lemma_base_name_suffix(bpj, ".backup.json"@);
                        let b = base_name(bp);
                        assert(b == base_name(bpj) + ".backup.json"@);
                        assert(b.skip(b.len() - 5) =~= ".json"@);
                    }
                    assert(false);
                }
            }
        }

        lemma_history_step(prev.0, prev.1, root, path, reason, ts);
        let o = create_spec(prev.0, prev.1, root, path, reason, ts)->Ok_0;
        let r = create_many(c0, t0, root, path, reason, stamps);
        assert(r == (o.0, o.1));

        // One more snapshot, capped at the retention count.
        assert(snapshot_set(prev.0, dir).len() == (if head.len() <= MAX_BACKUPS_PER_FILE {
            head.len()
        } else {
            MAX_BACKUPS_PER_FILE as nat
        }));

        // Every key the directory gained is named by some stamp.
        assert forall|q: Seq<char>|
            #[trigger] r.0.contains_key(q) && in_dir(q, dir) implies named_by_stamps(
            q,
            root,
            path,
            stamps,
        ) by {
            if q == bp || q == sidecar_of(bp) {
                assert(stamps[stamps.len() - 1] == ts);
                assert(q == snapshot_path_of(root, path, stamps[stamps.len() - 1]) || q
                    == sidecar_of(snapshot_path_of(root, path, stamps[stamps.len() - 1])));
            } else {
                assert(prev.0.contains_key(q));
                assert(named_by_stamps(q, root, path, head));
                let j = choose|j: int|
                    0 <= j < head.len() && (q == #[trigger] snapshot_path_of(
                        root,
                        path,
                        head[j],
                    ) || q == sidecar_of(snapshot_path_of(root, path, head[j])));
                assert(q == snapshot_path_of(root, path, stamps[j]) || q == sidecar_of(
                    snapshot_path_of(root, path, stamps[j]),
                ));
            }
        }
    }
}

} // verus!
