//! The backup store: deterministic naming of the backup area, snapshot
//! creation and restoration, listing, and bounded retention, all over the
//! in-memory disk image.

use vstd::prelude::*;
use vstd::string::StrSliceExecFns;
use vstd::string::StringExecFns;
use vstd::utf8::valid_utf8;
use vstd::utf8::decode_utf8;
use vstd::utf8::encode_utf8;

use crate::BackupError;
use crate::clock::current_rfc3339;
use crate::clock::current_timestamp;
use crate::digest::calculate_checksum;
use crate::digest::lemma_sha256_hex_len;
use crate::digest::sha256_hex;
use crate::disk::Disk;
use crate::disk::DiskFile;
use crate::disk::FileKind;
use crate::disk::FileView;
use crate::disk::seq_to_map;
use crate::events::BackupEvent;
use crate::events::BackupEventType;
use crate::events::EventSeverity;
use crate::meta::BackupMetadata;
use crate::meta::BackupReason;
use crate::meta::MetaView;
use crate::meta::ReasonView;
use crate::meta::metadata_json;
use crate::meta::p_meta;
use crate::meta::is_digit;
use crate::text::clone_bytes;
use crate::text::dec_digits;
use crate::text::contains_sub;
use crate::text::ends_with;
use crate::text::ends_with_str;
use crate::text::has_sub;
use crate::text::lex_less;
use crate::text::lex_lt;
use crate::text::prefix_chars;
use crate::text::push_char;
use crate::text::sanitize_path;
use crate::text::sanitized;
use crate::text::u64_to_string;

verus! {

/// How many snapshots of one original file the store keeps.
pub const MAX_BACKUPS_PER_FILE: usize = 10;

/// A sequence without path separators.
pub open spec fn no_slash(s: Seq<char>) -> bool {
    forall|i: int| 0 <= i < s.len() ==> s[i] != '/'
}

/// The backup directory of one original path: a single level under the
/// store root, named by the sanitised path.
pub open spec fn backup_dir_of(root: Seq<char>, orig: Seq<char>) -> Seq<char> {
    root + "/"@ + sanitized(orig)
}

/// The name part of a path: everything after the last separator.
pub open spec fn base_name(p: Seq<char>) -> Seq<char>
    decreases p.len(),
{
    if p.len() == 0 {
        Seq::empty()
    } else if p.last() == '/' {
        Seq::empty()
    } else {
        base_name(p.drop_last()).push(p.last())
    }
}

/// The path of a snapshot of `orig` taken at `ts`.
pub open spec fn snapshot_path_of(root: Seq<char>, orig: Seq<char>, ts: Seq<char>) -> Seq<char> {
    backup_dir_of(root, orig) + "/"@ + base_name(orig) + ".backup."@ + ts
}

/// The sidecar path of a snapshot path.
pub open spec fn sidecar_of(p: Seq<char>) -> Seq<char> {
    p + ".backup.json"@
}

/// Whether `p` names a direct child of `dir`.
pub open spec fn in_dir(p: Seq<char>, dir: Seq<char>) -> bool {
    &&& p.len() > dir.len() + 1
    &&& p.take(dir.len() as int) == dir
    &&& p[dir.len() as int] == '/'
    &&& no_slash(p.skip(dir.len() + 1 as int))
}

/// Whether `p` lies anywhere below `root`.
pub open spec fn under_root(p: Seq<char>, root: Seq<char>) -> bool {
    &&& p.len() > root.len()
    &&& p.take(root.len() as int) == root
    &&& p[root.len() as int] == '/'
}

/// Whether a file name looks like a snapshot: it carries the backup
/// marker and is not a sidecar.
pub open spec fn is_snapshot_name(name: Seq<char>) -> bool {
    has_sub(name, ".backup."@) && !ends_with(name, ".json"@)
}

/// A timestamp that is safe to embed in a snapshot file name.
pub open spec fn stamp_usable(ts: Seq<char>) -> bool {
    no_slash(ts) && !ends_with(".backup."@ + ts, ".json"@)
}

/// The name part has no separators.
pub proof fn lemma_base_name_no_slash(p: Seq<char>)
    ensures
        no_slash(base_name(p)),
    decreases p.len(),
{
    if p.len() > 0 && p.last() != '/' {
        lemma_base_name_no_slash(p.drop_last());
    }
}

/// The name part of a path built from a directory, a separator and a
/// separator-free name is that name.
pub proof fn lemma_base_name_after_slash(pre: Seq<char>, f: Seq<char>)
    requires
        no_slash(f),
    ensures
        base_name(pre + seq!['/'] + f) == f,
    decreases f.len(),
{
    let s = pre + seq!['/'] + f;
    if f.len() == 0 {
        assert(s.last() == '/');
        assert(base_name(s) =~= f);
    } else {
        assert(s.last() == f.last());
        assert(f.last() != '/');
        assert(s.drop_last() =~= pre + seq!['/'] + f.drop_last());
        assert(no_slash(f.drop_last())) by {
            assert(forall|i: int| 0 <= i < f.len() - 1 ==> f.drop_last()[i] == #[trigger] f[i]);
        }
        lemma_base_name_after_slash(pre, f.drop_last());
        assert(base_name(s) =~= f);
    }
}

/// Where a snapshot path lands and what its name looks like.
pub proof fn lemma_snapshot_path_shape(root: Seq<char>, orig: Seq<char>, ts: Seq<char>)
    requires
        stamp_usable(ts),
    ensures
        in_dir(snapshot_path_of(root, orig, ts), backup_dir_of(root, orig)),
        is_snapshot_name(base_name(snapshot_path_of(root, orig, ts))),
        base_name(snapshot_path_of(root, orig, ts)) == base_name(orig) + ".backup."@ + ts,
{
    let dir = backup_dir_of(root, orig);
    let f = base_name(orig) + ".backup."@ + ts;
    let bp = snapshot_path_of(root, orig, ts);
    reveal_strlit(".backup.");
    reveal_strlit(".json");
    lemma_base_name_no_slash(orig);
    assert(no_slash(f)) by {
        assert(forall|i: int|
            0 <= i < base_name(orig).len() ==> f[i] == (#[trigger] base_name(orig)[i]));
        assert(forall|i: int|
            0 <= i < 8 ==> f[base_name(orig).len() + i] == (#[trigger] ".backup."@[i]));
        assert(forall|i: int|
            0 <= i < ts.len() ==> f[base_name(orig).len() + 8 + i] == (#[trigger] ts[i]));
        assert(".backup."@[0] != '/' && ".backup."@[1] != '/' && ".backup."@[2] != '/'
            && ".backup."@[3] != '/' && ".backup."@[4] != '/' && ".backup."@[5] != '/'
            && ".backup."@[6] != '/' && ".backup."@[7] != '/');
    }
    assert(bp =~= dir + seq!['/'] + f) by {
        assert("/"@.len() == 1) by {
            reveal_strlit("/");
        }
        assert("/"@[0] == '/') by {
            reveal_strlit("/");
        }
    }
    lemma_base_name_after_slash(dir, f);
    assert(base_name(bp) == f);
    // The path is a direct child of the directory.
    assert(bp.take(dir.len() as int) =~= dir);
    assert(bp[dir.len() as int] == '/');
    assert(bp.skip(dir.len() + 1 as int) =~= f);
    // The name carries the marker ...
    assert(f.subrange(base_name(orig).len() as int, base_name(orig).len() + 8 as int) =~= ".backup."@);
    assert(has_sub(f, ".backup."@));
    // ... and does not end in ".json".
    assert(!ends_with(f, ".json"@)) by {
        if ends_with(f, ".json"@) {
            let tail = ".backup."@ + ts;
            assert(f.len() >= 5);
            assert(tail.len() >= 5);
            assert(forall|i: int|
                0 <= i < tail.len() ==> #[trigger] tail[i] == f[base_name(orig).len() + i]);
            assert(tail.skip(tail.len() - 5) =~= f.skip(f.len() - 5));
            assert(ends_with(tail, ".json"@));
        }
    }
}

// ------------------------------------------------------------------
// Executable path helpers.

/// The name part of a path, as executable code.
pub fn base_name_exec(p: &str) -> (r: String)
    ensures
        r@ == base_name(p@),
{
    let n = p.unicode_len();
    let mut cut: usize = 0;
    let mut i: usize = 0;
    proof {
        assert(base_name(p@.take(0)) =~= p@.subrange(0, 0));
    }
    while i < n
        invariant
            n == p@.len(),
            i <= n,
            cut <= i,
            base_name(p@.take(i as int)) == p@.subrange(cut as int, i as int),
        decreases n - i,
    {
        let c = p.get_char(i);
        proof {
            assert(p@.take(i + 1).last() == p@[i as int]);
            assert(p@.take(i + 1).drop_last() =~= p@.take(i as int));
        }
        if c == '/' {
            cut = i + 1;
            proof {
                assert(base_name(p@.take(i + 1)) =~= p@.subrange(cut as int, i + 1));
            }
        } else {
            proof {
                assert(base_name(p@.take(i + 1)) =~= p@.subrange(cut as int, i as int).push(
                    p@[i as int],
                ));
                assert(p@.subrange(cut as int, i as int).push(p@[i as int]) =~= p@.subrange(
                    cut as int,
                    i + 1,
                ));
            }
        }
        i += 1;
    }
    proof {
        assert(p@.take(n as int) =~= p@);
    }
    let mut out = String::new();
    let mut k: usize = cut;
    proof {
        assert(out@ =~= p@.subrange(cut as int, cut as int));
    }
    while k < n
        invariant
            n == p@.len(),
            cut <= k <= n,
            out@ == p@.subrange(cut as int, k as int),
        decreases n - k,
    {
        push_char(&mut out, p.get_char(k));
        proof {
            assert(out@ =~= p@.subrange(cut as int, k + 1));
        }
        k += 1;
    }
    out
}

/// Decides whether `p` is a direct child of `dir`.
pub fn in_dir_exec(p: &str, dir: &str) -> (r: bool)
    ensures
        r == in_dir(p@, dir@),
{
    let plen = p.unicode_len();
    let dlen = dir.unicode_len();
    if !(plen > dlen && plen - dlen >= 2) {
        return false;
    }
    if !crate::text::match_at(p, dir, 0) {
        proof {
            assert(p@.subrange(0, dir@.len() as int) =~= p@.take(dir@.len() as int));
        }
        return false;
    }
    proof {
        assert(p@.subrange(0, dir@.len() as int) =~= p@.take(dir@.len() as int));
    }
    if p.get_char(dlen) != '/' {
        return false;
    }
    let mut j: usize = dlen + 1;
    while j < plen
        invariant
            plen == p@.len(),
            dlen == dir@.len(),
            dlen + 1 <= j <= plen,
            forall|t: int| dlen + 1 <= t < j ==> p@[t] != '/',
        decreases plen - j,
    {
        if p.get_char(j) == '/' {
            proof {
                assert(p@.skip(dlen + 1)[j - dlen - 1] == '/');
            }
            return false;
        }
        j += 1;
    }
    proof {
        assert(forall|t: int|
            0 <= t < p@.skip(dlen + 1).len() ==> #[trigger] p@.skip(dlen + 1)[t] == p@[t + dlen
                + 1]);
    }
    true
}

/// Decides whether `p` lies below `root`.
pub fn under_root_exec(p: &str, root: &str) -> (r: bool)
    ensures
        r == under_root(p@, root@),
{
    let plen = p.unicode_len();
    let rlen = root.unicode_len();
    if plen <= rlen {
        return false;
    }
    if !crate::text::match_at(p, root, 0) {
        proof {
            assert(p@.subrange(0, root@.len() as int) =~= p@.take(root@.len() as int));
        }
        return false;
    }
    proof {
        assert(p@.subrange(0, root@.len() as int) =~= p@.take(root@.len() as int));
    }
    p.get_char(rlen) == '/'
}

/// Decides whether a name looks like a snapshot.
pub fn is_snapshot_name_exec(name: &str) -> (r: bool)
    ensures
        r == is_snapshot_name(name@),
{
    contains_sub(name, ".backup.") && !ends_with_str(name, ".json")
}

/// The backup directory of an original path, as a string.
pub fn backup_dir_exec(root: &str, orig: &str) -> (r: String)
    ensures
        r@ == backup_dir_of(root@, orig@),
{
    let mut dir = root.to_owned();
    dir.append("/");
    let san = sanitize_path(orig);
    dir.append(san.as_str());
    dir
}

/// Keeps only digits and underscores: the shape a wall-clock stamp has,
/// and a shape that is always safe in a snapshot file name.
pub open spec fn stamp_chars(s: Seq<char>) -> Seq<char>
    decreases s.len(),
{
    if s.len() == 0 {
        Seq::empty()
    } else {
        let head: Seq<char> = if is_digit(s[0]) || s[0] == '_' {
            seq![s[0]]
        } else {
            Seq::empty()
        };
        head + stamp_chars(s.drop_first())
    }
}

proof fn lemma_stamp_chars_take(s: Seq<char>, i: int)
    requires
        0 <= i < s.len(),
    ensures
        stamp_chars(s.take(i + 1)) == stamp_chars(s.take(i)) + (if is_digit(s[i]) || s[i] == '_' {
            seq![s[i]]
        } else {
            Seq::<char>::empty()
        }),
    decreases i,
{
    if i == 0 {
        assert(s.take(1) =~= seq![s[0]]);
        assert(s.take(1).drop_first() =~= Seq::<char>::empty());
        assert(s.take(0) =~= Seq::<char>::empty());
        assert(stamp_chars(Seq::<char>::empty()) == Seq::<char>::empty());
        assert(stamp_chars(s.take(1)) =~= (if is_digit(s[0]) || s[0] == '_' {
            seq![s[0]]
        } else {
            Seq::<char>::empty()
        }));
    } else {
        let t = s.drop_first();
        assert(s.take(i + 1).drop_first() =~= t.take(i));
        assert(s.take(i).drop_first() =~= t.take(i - 1));
        assert(s.take(i + 1)[0] == s[0]);
        assert(s.take(i)[0] == s[0]);
        lemma_stamp_chars_take(t, i - 1);
        assert(t[i - 1] == s[i]);
        let h: Seq<char> = if is_digit(s[0]) || s[0] == '_' {
            seq![s[0]]
        } else {
            Seq::<char>::empty()
        };
        let e: Seq<char> = if is_digit(s[i]) || s[i] == '_' {
            seq![s[i]]
        } else {
            Seq::<char>::empty()
        };
        assert(stamp_chars(s.take(i + 1)) == h + stamp_chars(t.take(i)));
        assert(stamp_chars(s.take(i)) == h + stamp_chars(t.take(i - 1)));
        assert(h + (stamp_chars(t.take(i - 1)) + e) =~= (h + stamp_chars(t.take(i - 1))) + e);
    }
}

/// Every kept character is a digit or an underscore.
proof fn lemma_stamp_chars_shape(s: Seq<char>)
    ensures
        forall|i: int|
            0 <= i < stamp_chars(s).len() ==> is_digit(#[trigger] stamp_chars(s)[i])
                || stamp_chars(s)[i] == '_',
    decreases s.len(),
{
    if s.len() > 0 {
        lemma_stamp_chars_shape(s.drop_first());
        let h: Seq<char> = if is_digit(s[0]) || s[0] == '_' {
            seq![s[0]]
        } else {
            Seq::<char>::empty()
        };
        let rest = stamp_chars(s.drop_first());
        assert(stamp_chars(s) == h + rest);
        assert forall|i: int|
            0 <= i < stamp_chars(s).len() implies is_digit(#[trigger] stamp_chars(s)[i])
            || stamp_chars(s)[i] == '_' by {
            if i < h.len() {
                assert(stamp_chars(s)[i] == s[0]);
            } else {
                assert(stamp_chars(s)[i] == rest[i - h.len()]);
            }
        }
    }
}

/// A stamp of digits and underscores is safe in a snapshot file name.
pub proof fn lemma_stamp_chars_usable(s: Seq<char>)
    ensures
        stamp_usable(stamp_chars(s)),
{
    let ts = stamp_chars(s);
    lemma_stamp_chars_shape(s);
    reveal_strlit(".backup.");
    reveal_strlit(".json");
    assert(no_slash(ts)) by {
        assert(('/' as u32) == 47);
        assert(forall|i: int| 0 <= i < ts.len() ==> is_digit(#[trigger] ts[i]) || ts[i] == '_');
    }
    let tail = ".backup."@ + ts;
    if ends_with(tail, ".json"@) {
        assert(tail.skip(tail.len() - 5) == ".json"@);
        assert(tail.skip(tail.len() - 5)[4] == tail[tail.len() - 1]);
        assert(tail.last() == 'n');
        if ts.len() == 0 {
            assert(tail =~= ".backup."@);
            assert(tail.last() == '.');
        } else {
            assert(tail.last() == ts.last());
            assert(is_digit(ts.last()) || ts.last() == '_');
            assert(('n' as u32) == 110);
        }
        assert(false);
    }
}

/// Filters a wall-clock reading down to digits and underscores.
pub fn clean_stamp(s: &str) -> (r: String)
    ensures
        r@ == stamp_chars(s@),
        stamp_usable(r@),
{
    let n = s.unicode_len();
    let mut out = String::new();
    let mut i: usize = 0;
    proof {
        assert(s@.take(0) =~= Seq::<char>::empty());
        assert(out@ =~= stamp_chars(s@.take(0)));
    }
    while i < n
        invariant
            n == s@.len(),
            i <= n,
            out@ == stamp_chars(s@.take(i as int)),
        decreases n - i,
    {
        let c = s.get_char(i);
        if ('0' <= c && c <= '9') || c == '_' {
            push_char(&mut out, c);
        }
        proof {
            lemma_stamp_chars_take(s@, i as int);
        }
        i += 1;
    }
    proof {
        assert(s@.take(n as int) =~= s@);
        lemma_stamp_chars_usable(s@);
    }
    out
}

// ------------------------------------------------------------------
// Retention.

/// Whether `p` names a snapshot file of `dir` in the image `c`.
pub open spec fn is_snapshot_file(c: Map<Seq<char>, FileView>, dir: Seq<char>, p: Seq<char>) -> bool {
    c.contains_key(p) && c[p].kind is Regular && in_dir(p, dir) && is_snapshot_name(base_name(p))
}

/// The snapshot files of `dir` stamped later than `x`.
pub open spec fn newer_than(c: Map<Seq<char>, FileView>, dir: Seq<char>, x: nat) -> Set<Seq<char>> {
    c.dom().filter(|q: Seq<char>| is_snapshot_file(c, dir, q) && c[q].mtime > x)
}

/// A snapshot the retention rule removes: at least the retention count of
/// strictly newer snapshots stand beside it.
pub open spec fn is_victim(c: Map<Seq<char>, FileView>, dir: Seq<char>, p: Seq<char>) -> bool {
    is_snapshot_file(c, dir, p) && newer_than(c, dir, c[p].mtime).len() >= MAX_BACKUPS_PER_FILE
}

/// The snapshot files of `dir`.
pub open spec fn snapshot_set(c: Map<Seq<char>, FileView>, dir: Seq<char>) -> Set<Seq<char>> {
    c.dom().filter(|p: Seq<char>| is_snapshot_file(c, dir, p))
}

/// All snapshots of `dir` the retention rule removes.
pub open spec fn victims(c: Map<Seq<char>, FileView>, dir: Seq<char>) -> Set<Seq<char>> {
    c.dom().filter(|p: Seq<char>| is_victim(c, dir, p))
}

/// What pruning deletes: every victim and its sidecar.
pub open spec fn pruned_keys(c: Map<Seq<char>, FileView>, dir: Seq<char>) -> Set<Seq<char>> {
    victims(c, dir) + victims(c, dir).map(|p: Seq<char>| sidecar_of(p))
}

/// The image after retention has pruned `dir`.
pub open spec fn prune_map(c: Map<Seq<char>, FileView>, dir: Seq<char>) -> Map<
    Seq<char>,
    FileView,
> {
    c.remove_keys(pruned_keys(c, dir))
}

/// The snapshots of `dir` among `s`, in walk order, as path and stamp.
pub open spec fn snap_list(s: Seq<DiskFile>, dir: Seq<char>) -> Seq<(Seq<char>, nat)>
    decreases s.len(),
{
    if s.len() == 0 {
        Seq::empty()
    } else {
        let rest = snap_list(s.drop_last(), dir);
        let f = s.last();
        if f.kind is Regular && in_dir(f.path@, dir) && is_snapshot_name(base_name(f.path@)) {
            rest.push((f.path@, f.mtime as nat))
        } else {
            rest
        }
    }
}

/// How many listed snapshots are stamped later than `x`.
pub open spec fn count_gt(q: Seq<(Seq<char>, nat)>, x: nat) -> nat
    decreases q.len(),
{
    if q.len() == 0 {
        0
    } else {
        count_gt(q.drop_last(), x) + (if q.last().1 > x {
            1nat
        } else {
            0nat
        })
    }
}

/// Whether some listed snapshot has path `p`.
pub open spec fn in_snap_list(q: Seq<(Seq<char>, nat)>, p: Seq<char>) -> bool {
    exists|k: int| 0 <= k < q.len() && (#[trigger] q[k]).0 == p
}

/// Dropping the last entry keeps the earlier ones in place.
proof fn lemma_drop_last_frame(s: Seq<DiskFile>)
    requires
        s.len() > 0,
    ensures
        forall|i: int| 0 <= i < s.len() - 1 ==> #[trigger] s.drop_last()[i] == s[i],
        distinct_paths_of(s) ==> distinct_paths_of(s.drop_last()),
{
    assert(forall|i: int| 0 <= i < s.len() - 1 ==> #[trigger] s.drop_last()[i] == s[i]);
}

/// A local alias so the frame lemma can state preservation.
pub open spec fn distinct_paths_of(s: Seq<DiskFile>) -> bool {
    crate::disk::distinct_paths(s)
}

/// Every listed snapshot is a snapshot file of the folded image, with its
/// stamp, and no path is listed twice.
proof fn lemma_snap_list_sound(s: Seq<DiskFile>, dir: Seq<char>)
    requires
        distinct_paths_of(s),
    ensures
        forall|k: int|
            0 <= k < snap_list(s, dir).len() ==> is_snapshot_file(
                seq_to_map(s),
                dir,
                (#[trigger] snap_list(s, dir)[k]).0,
            ) && seq_to_map(s)[snap_list(s, dir)[k].0].mtime == snap_list(s, dir)[k].1,
        forall|k1: int, k2: int|
            0 <= k1 < k2 < snap_list(s, dir).len() ==> (#[trigger] snap_list(s, dir)[k1]).0 != (
            #[trigger] snap_list(s, dir)[k2]).0,
    decreases s.len(),
{
    if s.len() > 0 {
        lemma_drop_last_frame(s);
        lemma_snap_list_sound(s.drop_last(), dir);
        let m = seq_to_map(s);
        let mp = seq_to_map(s.drop_last());
        let lp = s.last().path@;
        crate::disk::lemma_seq_to_map(s.drop_last(), lp);
        if crate::disk::path_index(s.drop_last(), lp) >= 0 {
            let pi = crate::disk::path_index(s.drop_last(), lp);
            assert(s.drop_last()[pi].path@ == lp);
            assert(s[pi].path@ == s[s.len() - 1].path@);
            assert(false);
        }
        assert(!mp.contains_key(lp));
        // Earlier keys keep their content under the final insert.
        assert(forall|p: Seq<char>|
            mp.contains_key(p) ==> m.contains_key(p) && m[p] == #[trigger] mp[p]);
        assert(forall|p: Seq<char>|
            mp.contains_key(p) ==> (is_snapshot_file(mp, dir, p) <==> is_snapshot_file(
                m,
                dir,
                p,
            )));
        let rest = snap_list(s.drop_last(), dir);
        assert(forall|k: int|
            0 <= k < rest.len() ==> mp.contains_key((#[trigger] rest[k]).0));
        assert(m.contains_key(lp) && m[lp] == s.last()@);
        assert(forall|k: int|
            0 <= k < rest.len() ==> (#[trigger] rest[k]).0 != lp);
    }
}

/// Every snapshot file of the folded image is listed.
proof fn lemma_snap_list_complete(s: Seq<DiskFile>, dir: Seq<char>)
    requires
        distinct_paths_of(s),
    ensures
        forall|p: Seq<char>|
            is_snapshot_file(seq_to_map(s), dir, p) ==> #[trigger] in_snap_list(
                snap_list(s, dir),
                p,
            ),
{
    assert forall|p: Seq<char>|
        is_snapshot_file(seq_to_map(s), dir, p) implies #[trigger] in_snap_list(
        snap_list(s, dir),
        p,
    ) by {
        crate::disk::lemma_seq_to_map(s, p);
        let pi = crate::disk::path_index(s, p);
        assert(pi >= 0);
        assert(s[pi].path@ == p && s[pi]@ == seq_to_map(s)[p]);
        lemma_snap_list_has(s, dir, pi);
    }
}

/// A qualifying entry appears in the listing.
proof fn lemma_snap_list_has(s: Seq<DiskFile>, dir: Seq<char>, i: int)
    requires
        0 <= i < s.len(),
        s[i].kind is Regular,
        in_dir(s[i].path@, dir),
        is_snapshot_name(base_name(s[i].path@)),
    ensures
        in_snap_list(snap_list(s, dir), s[i].path@),
    decreases s.len(),
{
    let q = snap_list(s, dir);
    if i == s.len() - 1 {
        assert(q.last().0 == s[i].path@);
        assert(q[q.len() - 1].0 == s[i].path@);
    } else {
        lemma_drop_last_frame(s);
        lemma_snap_list_has(s.drop_last(), dir, i);
        let rest = snap_list(s.drop_last(), dir);
        let k = choose|k: int| 0 <= k < rest.len() && (#[trigger] rest[k]).0 == s[i].path@;
        assert(q[k].0 == s[i].path@);
    }
}

/// Counting over the listing matches the cardinality of the newer set.
proof fn lemma_count_card(s: Seq<DiskFile>, dir: Seq<char>, x: nat)
    requires
        distinct_paths_of(s),
    ensures
        newer_than(seq_to_map(s), dir, x).finite(),
        newer_than(seq_to_map(s), dir, x).len() == count_gt(snap_list(s, dir), x),
    decreases s.len(),
{
    if s.len() == 0 {
        assert(newer_than(seq_to_map(s), dir, x) =~= Set::<Seq<char>>::empty());
    } else {
        lemma_drop_last_frame(s);
        lemma_count_card(s.drop_last(), dir, x);
        let m = seq_to_map(s);
        let mp = seq_to_map(s.drop_last());
        let f = s.last();
        let lp = f.path@;
        crate::disk::lemma_seq_to_map(s.drop_last(), lp);
        if crate::disk::path_index(s.drop_last(), lp) >= 0 {
            let pi = crate::disk::path_index(s.drop_last(), lp);
            assert(s.drop_last()[pi].path@ == lp);
            assert(s[pi].path@ == s[s.len() - 1].path@);
            assert(false);
        }
        assert(!mp.contains_key(lp));
        assert(forall|p: Seq<char>|
            mp.contains_key(p) ==> m.contains_key(p) && m[p] == #[trigger] mp[p]);
        assert(forall|p: Seq<char>|
            mp.contains_key(p) ==> (is_snapshot_file(mp, dir, p) <==> is_snapshot_file(
                m,
                dir,
                p,
            )));
        let sp = newer_than(mp, dir, x);
        let sm = newer_than(m, dir, x);
        let rest = snap_list(s.drop_last(), dir);
        let lst = snap_list(s, dir);
        if f.kind is Regular && in_dir(lp, dir) && is_snapshot_name(base_name(lp)) {
            assert(lst == rest.push((lp, f.mtime as nat)));
            assert(lst.drop_last() =~= rest);
            assert(lst.last() == (lp, f.mtime as nat));
            assert(count_gt(lst, x) == count_gt(rest, x) + (if (f.mtime as nat) > x {
                1nat
            } else {
                0nat
            }));
            assert(m.contains_key(lp) && m[lp] == f@);
            if (f.mtime as nat) > x {
                assert(sm =~= sp.insert(lp));
                assert(!sp.contains(lp));
                assert(sm.len() == sp.len() + 1);
            } else {
                assert(sm =~= sp);
            }
        } else {
            assert(lst == rest);
            assert(!is_snapshot_file(m, dir, lp));
            assert(sm =~= sp);
        }
    }
}

/// The keys removed after handling the first `a` listed snapshots.
pub open spec fn removed_upto(
    q: Seq<(Seq<char>, nat)>,
    c: Map<Seq<char>, FileView>,
    dir: Seq<char>,
    a: int,
) -> Set<Seq<char>>
    decreases a,
{
    if a <= 0 {
        Set::empty()
    } else {
        removed_upto(q, c, dir, a - 1) + (if is_victim(c, dir, q[a - 1].0) {
            set![q[a - 1].0, sidecar_of(q[a - 1].0)]
        } else {
            Set::empty()
        })
    }
}

/// What the partial removal set holds.
proof fn lemma_removed_upto(
    q: Seq<(Seq<char>, nat)>,
    c: Map<Seq<char>, FileView>,
    dir: Seq<char>,
    a: int,
)
    requires
        0 <= a <= q.len(),
    ensures
        forall|x: Seq<char>|
            #[trigger] removed_upto(q, c, dir, a).contains(x) <==> exists|k: int|
                0 <= k < a && is_victim(c, dir, (#[trigger] q[k]).0) && (x == q[k].0 || x
                    == sidecar_of(q[k].0)),
    decreases a,
{
    if a > 0 {
        lemma_removed_upto(q, c, dir, a - 1);
        assert forall|x: Seq<char>| #[trigger] removed_upto(q, c, dir, a).contains(x) implies (
        exists|k: int|
            0 <= k < a && is_victim(c, dir, (#[trigger] q[k]).0) && (x == q[k].0 || x
                == sidecar_of(q[k].0))) by {
            if removed_upto(q, c, dir, a - 1).contains(x) {
                let k = choose|k: int|
                    0 <= k < a - 1 && is_victim(c, dir, (#[trigger] q[k]).0) && (x == q[k].0 || x
                        == sidecar_of(q[k].0));
                assert(0 <= k < a && is_victim(c, dir, q[k].0) && (x == q[k].0 || x == sidecar_of(
                    q[k].0,
                )));
            } else {
                assert(is_victim(c, dir, q[a - 1].0) && (x == q[a - 1].0 || x == sidecar_of(
                    q[a - 1].0,
                )));
            }
        }
        assert forall|x: Seq<char>|
            (exists|k: int|
                0 <= k < a && is_victim(c, dir, (#[trigger] q[k]).0) && (x == q[k].0 || x
                    == sidecar_of(q[k].0))) implies #[trigger] removed_upto(
            q,
            c,
            dir,
            a,
        ).contains(x) by {
            let k = choose|k: int|
                0 <= k < a && is_victim(c, dir, (#[trigger] q[k]).0) && (x == q[k].0 || x
                    == sidecar_of(q[k].0));
            if k < a - 1 {
                assert(removed_upto(q, c, dir, a - 1).contains(x));
            } else {
                assert(k == a - 1);
            }
        }
    }
}

/// Prunes one backup directory down to the retention count, deleting the
/// oldest snapshots and their sidecars.  Best-effort by design in the
/// original sense: nothing here can fail, and the caller's operation never
/// aborts on retention.
fn prune_dir(disk: &mut Disk, dir: &str)
    requires
        old(disk).wf(),
    ensures
        final(disk).wf(),
        final(disk).contents() == prune_map(old(disk).contents(), dir@),
        final(disk).clock_val() == old(disk).clock_val(),
{
    let ghost c = old(disk).contents();
    let ghost s0 = old(disk).entries();
    proof {
        assert(distinct_paths_of(s0));
    }

    // Collect the snapshots of the directory: paths and stamps.
    let n = disk.file_count();
    let mut paths: Vec<String> = Vec::new();
    let mut stamps: Vec<u64> = Vec::new();
    let mut i: usize = 0;
    while i < n
        invariant
            *disk == *old(disk),
            n == disk.entries().len(),
            i <= n,
            paths@.len() == stamps@.len(),
            paths@.len() == snap_list(s0.take(i as int), dir@).len(),
            s0 == disk.entries(),
            forall|k: int|
                0 <= k < paths@.len() ==> (#[trigger] paths@[k])@ == snap_list(
                    s0.take(i as int),
                    dir@,
                )[k].0,
            forall|k: int|
                0 <= k < stamps@.len() ==> (#[trigger] stamps@[k]) as nat == snap_list(
                    s0.take(i as int),
                    dir@,
                )[k].1,
        decreases n - i,
    {
        let f = disk.file_at(i);
        let is_reg = match f.kind {
            FileKind::Regular => true,
            FileKind::Directory => false,
        };
        let bn = base_name_exec(f.path.as_str());
        let keep = is_reg && in_dir_exec(f.path.as_str(), dir) && is_snapshot_name_exec(
            bn.as_str(),
        );
        proof {
            assert(s0.take(i + 1).drop_last() =~= s0.take(i as int));
            assert(s0.take(i + 1).last() == s0[i as int]);
        }
        if keep {
            let pc = f.path.clone();
            let mt = f.mtime;
            paths.push(pc);
            stamps.push(mt);
        }
        i += 1;
    }
    proof {
        assert(s0.take(n as int) =~= s0);
    }
    let ghost q = snap_list(s0, dir@);
    proof {
        lemma_snap_list_sound(s0, dir@);
        lemma_snap_list_complete(s0, dir@);
    }

    // Remove every snapshot with at least the retention count of newer
    // neighbours, together with its sidecar.
    let m = paths.len();
    let mut a: usize = 0;
    while a < m
        invariant
            m == paths@.len(),
            m == stamps@.len(),
            m == q.len(),
            a <= m,
            q == snap_list(s0, dir@),
            c == seq_to_map(s0),
            distinct_paths_of(s0),
            forall|k: int| 0 <= k < m ==> (#[trigger] paths@[k])@ == q[k].0,
            forall|k: int| 0 <= k < m ==> (#[trigger] stamps@[k]) as nat == q[k].1,
            disk.wf(),
            disk.clock_val() == old(disk).clock_val(),
            disk.contents() == c.remove_keys(removed_upto(q, c, dir@, a as int)),
        decreases m - a,
    {
        let xa: u64 = stamps[a];
        let mut cnt: usize = 0;
        let mut b: usize = 0;
        while b < m
            invariant
                m == stamps@.len(),
                m == q.len(),
                b <= m,
                cnt <= b,
                forall|k: int| 0 <= k < m ==> (#[trigger] stamps@[k]) as nat == q[k].1,
                cnt == count_gt(q.take(b as int), xa as nat),
            decreases m - b,
        {
            proof {
                assert(q.take(b + 1).drop_last() =~= q.take(b as int));
                assert(q.take(b + 1).last() == q[b as int]);
            }
            if stamps[b] > xa {
                cnt = cnt + 1;
            }
            b += 1;
        }
        proof {
            assert(q.take(m as int) =~= q);
        }
        let ghost pa = q[a as int].0;
        if cnt >= MAX_BACKUPS_PER_FILE {
            proof {
                lemma_snap_list_sound(s0, dir@);
                lemma_count_card(s0, dir@, xa as nat);
                assert(c[pa].mtime == xa as nat);
                assert(is_victim(c, dir@, pa));
            }
            let mut sc = paths[a].clone();
            sc.append(".backup.json");
            let ghost before = disk.contents();
            disk.remove_file(paths[a].as_str());
            disk.remove_file(sc.as_str());
            proof {
                assert(sc@ == sidecar_of(pa));
                assert(before.remove(pa).remove(sidecar_of(pa)) =~= before.remove_keys(
                    set![pa, sidecar_of(pa)],
                ));
                assert(c.remove_keys(removed_upto(q, c, dir@, a as int)).remove_keys(
                    set![pa, sidecar_of(pa)],
                ) =~= c.remove_keys(removed_upto(q, c, dir@, a + 1)));
            }
        } else {
            proof {
                lemma_snap_list_sound(s0, dir@);
                lemma_count_card(s0, dir@, xa as nat);
                assert(!is_victim(c, dir@, pa)) by {
                    if is_victim(c, dir@, pa) {
                        assert(c[pa].mtime == xa as nat);
                    }
                }
                assert(removed_upto(q, c, dir@, a + 1) =~= removed_upto(q, c, dir@, a as int));
            }
        }
        a += 1;
    }

    // Everything the retention rule names, and nothing else, is gone.
    proof {
        lemma_snap_list_sound(s0, dir@);
        lemma_snap_list_complete(s0, dir@);
        lemma_removed_upto(q, c, dir@, m as int);
        assert(removed_upto(q, c, dir@, m as int) =~= pruned_keys(c, dir@)) by {
            assert forall|x: Seq<char>|
                pruned_keys(c, dir@).contains(x) implies removed_upto(
                q,
                c,
                dir@,
                m as int,
            ).contains(x) by {
                if victims(c, dir@).contains(x) {
                    assert(is_victim(c, dir@, x));
                    assert(in_snap_list(q, x));
                    let k = choose|k: int| 0 <= k < q.len() && (#[trigger] q[k]).0 == x;
                    assert(is_victim(c, dir@, q[k].0));
                } else {
                    let v = choose|v: Seq<char>|
                        victims(c, dir@).contains(v) && x == sidecar_of(v);
                    assert(is_victim(c, dir@, v));
                    assert(in_snap_list(q, v));
                    let k = choose|k: int| 0 <= k < q.len() && (#[trigger] q[k]).0 == v;
                    assert(is_victim(c, dir@, q[k].0));
                }
            }
            assert forall|x: Seq<char>|
                removed_upto(q, c, dir@, m as int).contains(x) implies pruned_keys(
                c,
                dir@,
            ).contains(x) by {
                let k = choose|k: int|
                    0 <= k < m && is_victim(c, dir@, (#[trigger] q[k]).0) && (x == q[k].0 || x
                        == sidecar_of(q[k].0));
                assert(victims(c, dir@).contains(q[k].0));
                if x != q[k].0 {
                    assert(victims(c, dir@).map(|p: Seq<char>| sidecar_of(p)).contains(x));
                }
            }
        }
        assert(disk.contents() == prune_map(c, dir@));
    }
}

// ------------------------------------------------------------------
// The store and its transitions.

/// Ensures one directory entry at the specification level: no change if
/// the path exists, a fresh stamped directory entry otherwise.
pub open spec fn with_dir(c: Map<Seq<char>, FileView>, t: nat, p: Seq<char>) -> (
    Map<Seq<char>, FileView>,
    nat,
) {
    if c.contains_key(p) {
        (c, t)
    } else {
        (c.insert(p, FileView { kind: FileKind::Directory, data: Seq::empty(), mtime: t }), (t
            + 1) as nat)
    }
}

/// What one snapshot creation does: the full transition from an image and
/// a counter to the new image, the new counter and the record returned.
pub open spec fn create_spec(
    c0: Map<Seq<char>, FileView>,
    t0: nat,
    root: Seq<char>,
    path: Seq<char>,
    reason: ReasonView,
    ts: Seq<char>,
) -> Result<(Map<Seq<char>, FileView>, nat, MetaView), BackupError> {
    if !c0.contains_key(path) {
        Err(BackupError::NotFound)
    } else if !(c0[path].kind is Regular) {
        Err(BackupError::NotARegularFile)
    } else {
        let content = c0[path].data;
        let bp = snapshot_path_of(root, path, ts);
        let m = MetaView {
            original_path: path,
            backup_path: bp,
            timestamp: ts,
            reason: reason,
            checksum: sha256_hex(content),
            size_bytes: content.len() as u64,
        };
        let dir = backup_dir_of(root, path);
        let r1 = with_dir(c0, t0, root);
        let r2 = with_dir(r1.0, r1.1, dir);
        let c3 = r2.0.insert(bp, FileView { kind: FileKind::Regular, data: content, mtime: r2.1 });
        let c4 = c3.insert(
            sidecar_of(bp),
            FileView {
                kind: FileKind::Regular,
                data: encode_utf8(metadata_json(m)),
                mtime: (r2.1 + 1) as nat,
            },
        );
        Ok((prune_map(c4, dir), (r2.1 + 2) as nat, m))
    }
}

/// Loading and decoding the sidecar of a snapshot: everything a
/// restoration checks before it considers touching the image.
pub open spec fn restore_precheck(c0: Map<Seq<char>, FileView>, bp: Seq<char>) -> Result<
    MetaView,
    BackupError,
> {
    if !c0.contains_key(bp) {
        Err(BackupError::NotFound)
    } else if !c0.contains_key(sidecar_of(bp)) {
        Err(BackupError::NotFound)
    } else {
        let bytes = c0[sidecar_of(bp)].data;
        if valid_utf8(bytes) && p_meta(decode_utf8(bytes)) is Some {
            Ok(p_meta(decode_utf8(bytes))->Some_0)
        } else {
            Err(BackupError::SerializationError)
        }
    }
}

/// The image and counter right after the copy of a restoration: the
/// pre-restore snapshot of the live original (when one exists) followed
/// by the snapshot's bytes written onto the original path.
pub open spec fn restore_copy_state(
    c0: Map<Seq<char>, FileView>,
    t0: nat,
    root: Seq<char>,
    bp: Seq<char>,
    ts: Seq<char>,
) -> (Map<Seq<char>, FileView>, nat)
    recommends
        restore_precheck(c0, bp) is Ok,
{
    let m = restore_precheck(c0, bp)->Ok_0;
    let orig = m.original_path;
    if c0.contains_key(orig) {
        let o = create_spec(c0, t0, root, orig, ReasonView::PreSystemChange, ts)->Ok_0;
        (
            o.0.insert(orig, FileView { kind: FileKind::Regular, data: c0[bp].data, mtime: o.1 }),
            (o.1 + 1) as nat,
        )
    } else {
        (
            c0.insert(orig, FileView { kind: FileKind::Regular, data: c0[bp].data, mtime: t0 }),
            (t0 + 1) as nat,
        )
    }
}

/// What one restoration does, pre-restore snapshot included.  The copy
/// is verified against the sidecar's recorded checksum: restoring a
/// snapshot whose bytes no longer match its record ends with an
/// integrity mismatch, after the copy (which is not rolled back).
pub open spec fn restore_spec(
    c0: Map<Seq<char>, FileView>,
    t0: nat,
    root: Seq<char>,
    bp: Seq<char>,
    ts: Seq<char>,
    force: bool,
) -> Result<(Map<Seq<char>, FileView>, nat), BackupError> {
    match restore_precheck(c0, bp) {
        Err(e) => Err(e),
        Ok(m) => {
            let orig = m.original_path;
            if c0.contains_key(orig) && !force && sha256_hex(c0[orig].data) != m.checksum {
                Err(BackupError::ConflictError)
            } else if c0.contains_key(orig) {
                match create_spec(c0, t0, root, orig, ReasonView::PreSystemChange, ts) {
                    Err(e) => Err(e),
                    Ok(o) => if !o.0.contains_key(bp) {
                        Err(BackupError::IoError)
                    } else if sha256_hex(c0[bp].data) != m.checksum {
                        Err(BackupError::IntegrityMismatch)
                    } else {
                        Ok(restore_copy_state(c0, t0, root, bp, ts))
                    },
                }
            } else {
                if sha256_hex(c0[bp].data) != m.checksum {
                    Err(BackupError::IntegrityMismatch)
                } else {
                    Ok(restore_copy_state(c0, t0, root, bp, ts))
                }
            }
        },
    }
}

/// What holds after a restoration that failed its final integrity
/// check: the pre-restore snapshot (when the original existed, with its
/// creation event) and the copy both stand, and no restoration event was
/// journalled.
pub open spec fn mismatch_outcome(
    c0: Map<Seq<char>, FileView>,
    t0: nat,
    root: Seq<char>,
    bp: Seq<char>,
    ts: Seq<char>,
    new_c: Map<Seq<char>, FileView>,
    new_t: nat,
    oldj: Seq<BackupEvent>,
    newj: Seq<BackupEvent>,
) -> bool {
    let m = restore_precheck(c0, bp)->Ok_0;
    let st = restore_copy_state(c0, t0, root, bp, ts);
    &&& new_c == st.0
    &&& new_t == st.1
    &&& newj.len() == oldj.len() + (if c0.contains_key(m.original_path) {
        1int
    } else {
        0int
    })
    &&& (c0.contains_key(m.original_path) ==> event_matches(
        newj.last()@,
        BackupEventType::BackupCreated,
        m.original_path,
        created_details(
            (create_spec(c0, t0, root, m.original_path, ReasonView::PreSystemChange, ts)->Ok_0).2,
        ),
        EventSeverity::Info,
    ))
}

/// What holds after a restoration that found its snapshot pruned away
/// by the pre-restore snapshot's retention pass: that snapshot's effects
/// and its creation event stand, and nothing else happened.
pub open spec fn io_outcome(
    c0: Map<Seq<char>, FileView>,
    t0: nat,
    root: Seq<char>,
    bp: Seq<char>,
    ts: Seq<char>,
    new_c: Map<Seq<char>, FileView>,
    new_t: nat,
    oldj: Seq<BackupEvent>,
    newj: Seq<BackupEvent>,
) -> bool {
    let m = restore_precheck(c0, bp)->Ok_0;
    match create_spec(c0, t0, root, m.original_path, ReasonView::PreSystemChange, ts) {
        Ok(o) => {
            &&& new_c == o.0
            &&& new_t == o.1
            &&& newj.len() == oldj.len() + 1
            &&& event_matches(
                newj.last()@,
                BackupEventType::BackupCreated,
                m.original_path,
                created_details(o.2),
                EventSeverity::Info,
            )
        },
        Err(_) => false,
    }
}

/// Every file of the image is small enough to digest.
pub open spec fn sizes_ok(c: Map<Seq<char>, FileView>) -> bool {
    forall|p: Seq<char>|
        #[trigger] c.contains_key(p) ==> c[p].data.len() < 0x2000000000000000
}

/// Whether a journal record carries the given fields; its wall-clock
/// timestamp is whatever the clock gave.
pub open spec fn event_matches(
    e: crate::events::EventView,
    t: BackupEventType,
    fp: Seq<char>,
    det: Seq<char>,
    sev: EventSeverity,
) -> bool {
    e.event_type == t && e.file_path == fp && e.details == det && e.severity == sev
}

/// The detail line of a creation event.
pub open spec fn created_details(m: MetaView) -> Seq<char> {
    "Backup created: "@ + dec_digits(m.size_bytes as nat) + " bytes, checksum "@ + m.checksum.take(
        16,
    )
}

/// The detail line of a restoration event.
pub open spec fn restored_details(bp: Seq<char>) -> Seq<char> {
    "Restored from backup: "@ + bp
}

/// A wall-clock stamp at second resolution, filtered down to the digits
/// and underscores the formatter produces, so it is always safe in a
/// snapshot file name.
pub fn fresh_stamp() -> (r: String)
    ensures
        stamp_usable(r@),
{
    let now = current_timestamp();
    clean_stamp(now.as_str())
}

/// The backup store: a root directory name, the disk image it owns, and
/// the journal of events it has emitted.
pub struct BackupStore {
    pub root: String,
    pub disk: Disk,
    pub journal: Vec<BackupEvent>,
}

impl BackupStore {
    /// The store is as well formed as its image.
    pub open spec fn wf(self) -> bool {
        self.disk.wf()
    }

    /// A store over a given image, rooted at `root`.
    pub fn new(root: String, disk: Disk) -> (s: BackupStore)
        requires
            disk.wf(),
        ensures
            s.wf(),
            s.root == root,
            s.disk == disk,
            s.journal@.len() == 0,
    {
        BackupStore { root, disk, journal: Vec::new() }
    }

    /// Appends one event to the journal, stamped with the current clock.
    /// Public so callers can journal their own orchestration outcomes.
    pub fn emit_backup_event(
        &mut self,
        event_type: BackupEventType,
        file_path: &str,
        details: &str,
        severity: EventSeverity,
    )
        ensures
            final(self).journal@.len() == old(self).journal@.len() + 1,
            event_matches(
                final(self).journal@.last()@,
                event_type,
                file_path@,
                details@,
                severity,
            ),
            crate::clock::rfc3339_shaped(final(self).journal@.last()@.timestamp),
            forall|i: int|
                0 <= i < old(self).journal@.len() ==> final(self).journal@[i] == #[trigger] old(self).journal@[i],
            final(self).disk == old(self).disk,
            final(self).root == old(self).root,
    {
        let ev = BackupEvent {
            timestamp: current_rfc3339(),
            event_type,
            file_path: file_path.to_owned(),
            details: details.to_owned(),
            severity,
        };
        self.journal.push(ev);
    }

    /// Creates one snapshot of `file_path`, stamped `timestamp`: copies
    /// the bytes, verifies the copy's digest, writes the sidecar record,
    /// prunes the file's backup directory down to the retention count and
    /// journals the creation.  With `dry_run` it computes the would-be
    /// record and changes nothing.
    #[verifier::rlimit(100)]
    pub fn create_backup(
        &mut self,
        file_path: &str,
        reason: BackupReason,
        timestamp: &str,
        dry_run: bool,
    ) -> (r: Result<BackupMetadata, BackupError>)
        requires
            old(self).wf(),
            old(self).disk.clock_val() + 4 <= u64::MAX as nat,
            stamp_usable(timestamp@),
            old(self).disk.contents().contains_key(file_path@) ==> old(self).disk.contents()[file_path@].data.len() < 0x2000000000000000,
        ensures
            final(self).wf(),
            final(self).root == old(self).root,
            final(self).disk.clock_val() >= old(self).disk.clock_val(),
            match create_spec(
                old(self).disk.contents(),
                old(self).disk.clock_val(),
                old(self).root@,
                file_path@,
                reason@,
                timestamp@,
            ) {
                Ok(o) => {
                    &&& r is Ok
                    &&& r->Ok_0@ == o.2
                    &&& if dry_run {
                        final(self).disk == old(self).disk && final(self).journal == old(self).journal
                    } else {
                        &&& final(self).disk.contents() == o.0
                        &&& final(self).disk.clock_val() == o.1
                        &&& final(self).journal@.len() == old(self).journal@.len() + 1
                        &&& event_matches(
                            final(self).journal@.last()@,
                            BackupEventType::BackupCreated,
                            file_path@,
                            created_details(o.2),
                            EventSeverity::Info,
                        )
                        &&& final(self).disk.contents().contains_key(o.2.backup_path)
                        &&& final(self).disk.contents()[o.2.backup_path] == (FileView {
                            kind: FileKind::Regular,
                            data: old(self).disk.contents()[file_path@].data,
                            mtime: final(self).disk.contents()[o.2.backup_path].mtime,
                        })
                        &&& final(self).disk.contents().contains_key(sidecar_of(o.2.backup_path))
                        &&& final(self).disk.contents()[sidecar_of(o.2.backup_path)].data
                            == encode_utf8(metadata_json(o.2))
                    }
                },
                Err(e) => r == Err::<BackupMetadata, BackupError>(e) && final(self).disk == old(self).disk && final(self).journal == old(self).journal,
            },
    {
        let ghost c0 = self.disk.contents();
        let ghost t0 = self.disk.clock_val();

        // The source must exist and be an ordinary file.
        let (content, size_bytes) = match self.disk.lookup(file_path) {
            None => {
                return Err(BackupError::NotFound);
            },
            Some(f) => {
                match f.kind {
                    FileKind::Directory => {
                        return Err(BackupError::NotARegularFile);
                    },
                    FileKind::Regular => (clone_bytes(&f.data), f.data.len() as u64),
                }
            },
        };

        // Digest the source and name the snapshot.
        let checksum = calculate_checksum(content.as_slice());
        let dir = backup_dir_exec(self.root.as_str(), file_path);
        let bn = base_name_exec(file_path);
        let mut bp = dir.clone();
        bp.append("/");
        bp.append(bn.as_str());
        bp.append(".backup.");
        bp.append(timestamp);
        let meta = BackupMetadata {
            original_path: file_path.to_owned(),
            backup_path: bp.clone(),
            timestamp: timestamp.to_owned(),
            reason,
            checksum,
            size_bytes,
        };
        proof {
            assert(meta@ == create_spec(c0, t0, self.root@, file_path@, meta.reason@, timestamp@)
                ->Ok_0.2);
        }
        if dry_run {
            return Ok(meta);
        }

        // Copy the bytes and verify the copy's digest against the source's.
        self.disk.make_dir(self.root.as_str());
        let ghost r1 = with_dir(c0, t0, self.root@);
        self.disk.make_dir(dir.as_str());
        let ghost r2 = with_dir(r1.0, r1.1, backup_dir_of(self.root@, file_path@));
        let copy = clone_bytes(&content);
        self.disk.write_file(bp.as_str(), copy);
        let copied = match self.disk.lookup(bp.as_str()) {
            None => {
                proof {
                    assert(false);
                }
                return Err(BackupError::IoError);
            },
            Some(f) => clone_bytes(&f.data),
        };
        let check_again = calculate_checksum(copied.as_slice());
        if !crate::text::str_eq(check_again.as_str(), meta.checksum.as_str()) {
            proof {
                assert(false);
            }
            return Err(BackupError::IntegrityMismatch);
        }

        // Persist the sidecar record beside the copy.
        let json = meta.to_json();
        let jbytes = json.as_str().as_bytes_vec();
        let mut sp = bp.clone();
        sp.append(".backup.json");
        self.disk.write_file(sp.as_str(), jbytes);
        let ghost c4 = self.disk.contents();

        // Retention, then the journal entry.
        prune_dir(&mut self.disk, dir.as_str());
        proof {
            lemma_snapshot_path_shape(self.root@, file_path@, timestamp@);
            assert(sidecar_of(meta@.backup_path) != meta@.backup_path) by {
                reveal_strlit(".backup.json");
                assert(sidecar_of(meta@.backup_path).len() == meta@.backup_path.len() + 12);
            }
            assert(c4.contains_key(meta@.backup_path));
            assert(c4[meta@.backup_path].mtime == r2.1);
            crate::disk::lemma_contents_mtime_bound(old(self).disk);
            assert forall|p: Seq<char>|
                #[trigger] c4.contains_key(p) implies p == meta@.backup_path || p == sidecar_of(
                meta@.backup_path,
            ) || c4[p].mtime < t0 || c4[p].kind is Directory by {
                if p != meta@.backup_path && p != sidecar_of(meta@.backup_path) {
                    if c0.contains_key(p) {
                        assert(c0[p].mtime < t0);
                    }
                }
            }
            lemma_create_survivors(c4, backup_dir_of(self.root@, file_path@), meta@, t0, r2.1);
        }
        proof {
            lemma_sha256_hex_len(c0[file_path@].data);
        }
        let mut details = String::from_str("Backup created: ");
        let num = u64_to_string(meta.size_bytes);
        details.append(num.as_str());
        details.append(" bytes, checksum ");
        let pref = prefix_chars(meta.checksum.as_str(), 16);
        details.append(pref.as_str());
        self.emit_backup_event(
            BackupEventType::BackupCreated,
            file_path,
            details.as_str(),
            EventSeverity::Info,
        );
        Ok(meta)
    }
}

/// After the copy and its sidecar go in, pruning never removes them: the
/// copy is the newest snapshot of its directory, and its sidecar is no
/// snapshot and shadows nobody else's sidecar.
proof fn lemma_create_survivors(
    c4: Map<Seq<char>, FileView>,
    dir: Seq<char>,
    m: MetaView,
    t0: nat,
    tcopy: nat,
)
    requires
        in_dir(m.backup_path, dir),
        is_snapshot_name(base_name(m.backup_path)),
        c4.contains_key(m.backup_path),
        c4[m.backup_path].mtime == tcopy,
        c4.contains_key(sidecar_of(m.backup_path)),
        forall|p: Seq<char>|
            #[trigger] c4.contains_key(p) ==> p == m.backup_path || p == sidecar_of(m.backup_path)
                || c4[p].mtime < t0 || c4[p].kind is Directory,
        t0 <= tcopy,
        c4[sidecar_of(m.backup_path)].mtime == tcopy + 1,
    ensures
        prune_map(c4, dir).contains_key(m.backup_path),
        prune_map(c4, dir)[m.backup_path] == c4[m.backup_path],
        prune_map(c4, dir).contains_key(sidecar_of(m.backup_path)),
        prune_map(c4, dir)[sidecar_of(m.backup_path)] == c4[sidecar_of(m.backup_path)],
{
    let bp = m.backup_path;
    let sp = sidecar_of(bp);
    reveal_strlit(".backup.json");
    reveal_strlit(".json");

    // The sidecar's name ends in ".json", so it is no snapshot.
    assert(!is_snapshot_name(base_name(sp))) by {
        lemma_base_name_suffix(bp, ".backup.json"@);
        let b = base_name(sp);
        assert(b == base_name(bp) + ".backup.json"@);
        assert(b.len() >= 5);
        assert(b.skip(b.len() - 5) =~= ".json"@);
        assert(ends_with(b, ".json"@));
    }

    // The copy is no victim: nothing in the directory is newer.
    assert(!is_victim(c4, dir, bp)) by {
        assert(newer_than(c4, dir, c4[bp].mtime) =~= Set::<Seq<char>>::empty()) by {
            assert forall|q: Seq<char>| !newer_than(c4, dir, c4[bp].mtime).contains(q) by {
                if newer_than(c4, dir, c4[bp].mtime).contains(q) {
                    assert(c4.contains_key(q) && c4[q].mtime > tcopy);
                    assert(is_snapshot_file(c4, dir, q));
                    if q == bp {
                        assert(false);
                    } else if q == sp {
                        assert(is_snapshot_name(base_name(sp)));
                        assert(false);
                    } else {
                        assert(c4[q].mtime < t0 || c4[q].kind is Directory);
                        assert(false);
                    }
                }
            }
        }
        assert(Set::<Seq<char>>::empty().len() == 0);
    }

    // The snapshot itself is not a victim, so its sidecar shadows nobody.
    assert(!pruned_keys(c4, dir).contains(bp)) by {
        if victims(c4, dir).contains(bp) {
            assert(false);
        }
        if victims(c4, dir).map(|p: Seq<char>| sidecar_of(p)).contains(bp) {
            let v = choose|v: Seq<char>|
                victims(c4, dir).contains(v) && sidecar_of(v) == bp;
            assert(ends_with(base_name(bp), ".json"@)) by {
                lemma_base_name_suffix(v, ".backup.json"@);
                let b = base_name(bp);
                assert(b == base_name(v) + ".backup.json"@);
                assert(b.skip(b.len() - 5) =~= ".json"@);
            }
            assert(false);
        }
    }
    assert(!pruned_keys(c4, dir).contains(sp)) by {
        if victims(c4, dir).contains(sp) {
            assert(is_snapshot_name(base_name(sp)));
            assert(false);
        }
        if victims(c4, dir).map(|p: Seq<char>| sidecar_of(p)).contains(sp) {
            let v = choose|v: Seq<char>|
                victims(c4, dir).contains(v) && sidecar_of(v) == sp;
            assert(v =~= bp) by {
                assert(v + ".backup.json"@ == bp + ".backup.json"@);
                assert(v.len() == bp.len());
                assert(forall|i: int|
                    0 <= i < v.len() ==> #[trigger] v[i] == (v + ".backup.json"@)[i] && bp[i] == (
                    bp + ".backup.json"@)[i]);
            }
            assert(victims(c4, dir).contains(bp));
            assert(false);
        }
    }
}

/// The name part of a path extended by separator-free text is the name
/// part extended by that text.
pub proof fn lemma_base_name_suffix(p: Seq<char>, ext: Seq<char>)
    requires
        no_slash(ext),
        ext.len() > 0,
        base_name(p).len() > 0 || p.len() == 0 || p.last() == '/',
    ensures
        base_name(p + ext) == base_name(p) + ext,
    decreases ext.len(),
{
    if ext.len() == 1 {
        let s = p + ext;
        assert(s.last() == ext[0]);
        assert(ext[0] != '/');
        assert(s.drop_last() =~= p);
        assert(base_name(s) == base_name(p).push(ext[0]));
        assert(base_name(p).push(ext[0]) =~= base_name(p) + ext);
    } else {
        let e1 = ext.drop_last();
        assert(no_slash(e1)) by {
            assert(forall|i: int|
                0 <= i < ext.len() - 1 ==> ext.drop_last()[i] == #[trigger] ext[i]);
        }
        lemma_base_name_suffix(p, e1);
        let s = p + ext;
        assert(s.last() == ext.last());
        assert(ext.last() != '/');
        assert(s.drop_last() =~= p + e1);
        assert(base_name(s) == base_name(p + e1).push(ext.last()));
        assert((base_name(p) + e1).push(ext.last()) =~= base_name(p) + ext);
    }
}


impl BackupStore {
    /// Restores a snapshot onto its original path.  Unless `force` is
    /// set, a diverged live original blocks the restoration; otherwise the
    /// live original is first snapshotted itself, then overwritten with
    /// the snapshot's bytes, and the result's digest is verified against
    /// the sidecar's recorded checksum — a corrupted snapshot fails with
    /// an integrity mismatch even when forced, and the copy is not rolled
    /// back.
    #[verifier::rlimit(100)]
    pub fn restore_backup(
        &mut self,
        backup_path: &str,
        timestamp: &str,
        dry_run: bool,
        force: bool,
    ) -> (r: Result<(), BackupError>)
        requires
            old(self).wf(),
            old(self).disk.clock_val() + 5 <= u64::MAX as nat,
            stamp_usable(timestamp@),
            sizes_ok(old(self).disk.contents()),
        ensures
            final(self).wf(),
            final(self).root == old(self).root,
            dry_run ==> (match restore_precheck(old(self).disk.contents(), backup_path@) {
                Err(e) => r == Err::<(), BackupError>(e) && final(self).disk == old(self).disk
                    && final(self).journal == old(self).journal,
                Ok(m) => {
                    let c0 = old(self).disk.contents();
                    if c0.contains_key(m.original_path) && !force && sha256_hex(
                        c0[m.original_path].data,
                    ) != m.checksum {
                        r == Err::<(), BackupError>(BackupError::ConflictError) && final(self).disk == old(self).disk && final(self).journal == old(self).journal
                    } else {
                        r is Ok && final(self).disk == old(self).disk && final(self).journal
                            == old(self).journal
                    }
                },
            }),
            !dry_run ==> (match restore_spec(
                old(self).disk.contents(),
                old(self).disk.clock_val(),
                old(self).root@,
                backup_path@,
                timestamp@,
                force,
            ) {
                Ok(o) => {
                    &&& r is Ok
                    &&& final(self).disk.contents() == o.0
                    &&& final(self).disk.clock_val() == o.1
                    &&& final(self).journal@.len() == old(self).journal@.len() + (
                    if old(self).disk.contents().contains_key(
                        restore_precheck(old(self).disk.contents(), backup_path@)
                            ->Ok_0.original_path,
                    ) {
                        2int
                    } else {
                        1int
                    })
                    &&& event_matches(
                        final(self).journal@.last()@,
                        BackupEventType::BackupRestored,
                        restore_precheck(old(self).disk.contents(), backup_path@)
                            ->Ok_0.original_path,
                        restored_details(backup_path@),
                        EventSeverity::Info,
                    )
                },
                Err(e) => {
                    &&& r == Err::<(), BackupError>(e)
                    &&& (e is IoError || e is IntegrityMismatch || (final(self).disk == old(self).disk && final(self).journal == old(self).journal))
                    &&& (e is IoError ==> io_outcome(
                        old(self).disk.contents(),
                        old(self).disk.clock_val(),
                        old(self).root@,
                        backup_path@,
                        timestamp@,
                        final(self).disk.contents(),
                        final(self).disk.clock_val(),
                        old(self).journal@,
                        final(self).journal@
                    ))
                    &&& (e is IntegrityMismatch ==> mismatch_outcome(
                        old(self).disk.contents(),
                        old(self).disk.clock_val(),
                        old(self).root@,
                        backup_path@,
                        timestamp@,
                        final(self).disk.contents(),
                        final(self).disk.clock_val(),
                        old(self).journal@,
                        final(self).journal@
                    ))
                },
            }),
    {
        let ghost c0 = self.disk.contents();
        let ghost t0 = self.disk.clock_val();

        // The snapshot and its sidecar must both exist.
        let snap_data = match self.disk.lookup(backup_path) {
            None => {
                return Err(BackupError::NotFound);
            },
            Some(f) => clone_bytes(&f.data),
        };
        let mut scp = backup_path.to_owned();
        scp.append(".backup.json");
        let side_bytes = match self.disk.lookup(scp.as_str()) {
            None => {
                return Err(BackupError::NotFound);
            },
            Some(f) => clone_bytes(&f.data),
        };

        // Decode the sidecar record.
        let text = match crate::text::utf8_to_string(side_bytes) {
            None => {
                return Err(BackupError::SerializationError);
            },
            Some(t) => t,
        };
        proof {
            vstd::utf8::encode_utf8_decode_utf8(text@);
            assert(text@ == decode_utf8(c0[sidecar_of(backup_path@)].data));
        }
        let meta = match BackupMetadata::from_json(text.as_str()) {
            None => {
                return Err(BackupError::SerializationError);
            },
            Some(m) => m,
        };
        proof {
            assert(restore_precheck(c0, backup_path@) == Ok::<MetaView, BackupError>(meta@));
        }

        // A diverged live original blocks an unforced restoration.
        let orig_state: Option<Vec<u8>> = match self.disk.lookup(meta.original_path.as_str()) {
            None => None,
            Some(f) => Some(clone_bytes(&f.data)),
        };
        let orig_exists = orig_state.is_some();
        if orig_exists && !force {
            let cur = match &orig_state {
                Some(d) => calculate_checksum(d.as_slice()),
                None => String::new(),
            };
            if !crate::text::str_eq(cur.as_str(), meta.checksum.as_str()) {
                return Err(BackupError::ConflictError);
            }
        }
        if dry_run {
            return Ok(());
        }

        // Preserve the live original first, as a snapshot of its own.
        if orig_exists {
            match self.create_backup(
                meta.original_path.as_str(),
                BackupReason::PreSystemChange,
                timestamp,
                false,
            ) {
                Err(e) => {
                    return Err(e);
                },
                Ok(_) => {},
            }
            // Retention may in principle have eaten the very snapshot we
            // are restoring; refuse rather than copy nothing.
            match self.disk.lookup(backup_path) {
                None => {
                    return Err(BackupError::IoError);
                },
                Some(_) => {},
            }
        }

        // Copy the snapshot's bytes onto the original path, then verify
        // the result against the sidecar's recorded checksum.  A snapshot
        // whose bytes no longer match its record fails here, after the
        // copy: the overwritten original is deliberately left as it is.
        let copy = clone_bytes(&snap_data);
        self.disk.write_file(meta.original_path.as_str(), copy);
        let after = match self.disk.lookup(meta.original_path.as_str()) {
            None => {
                proof {
                    assert(false);
                }
                return Err(BackupError::IoError);
            },
            Some(f) => clone_bytes(&f.data),
        };
        let restored_digest = calculate_checksum(after.as_slice());
        if !crate::text::str_eq(restored_digest.as_str(), meta.checksum.as_str()) {
            proof {
                assert(restored_digest@ == sha256_hex(c0[backup_path@].data));
            }
            return Err(BackupError::IntegrityMismatch);
        }

        let mut details = String::from_str("Restored from backup: ");
        details.append(backup_path);
        self.emit_backup_event(
            BackupEventType::BackupRestored,
            meta.original_path.as_str(),
            details.as_str(),
            EventSeverity::Info,
        );
        Ok(())
    }
}

// ------------------------------------------------------------------
// Listing.

/// The records parsed from the sidecars of one directory, in walk order.
pub open spec fn listing_seq(s: Seq<DiskFile>, dir: Seq<char>) -> Seq<MetaView>
    decreases s.len(),
{
    if s.len() == 0 {
        Seq::empty()
    } else {
        let rest = listing_seq(s.drop_last(), dir);
        let f = s.last();
        if in_dir(f.path@, dir) && ends_with(f.path@, ".json"@) && valid_utf8(f.data@) && p_meta(
            decode_utf8(f.data@),
        ) is Some {
            rest.push(p_meta(decode_utf8(f.data@))->Some_0)
        } else {
            rest
        }
    }
}

/// Newest first, by timestamp.
pub open spec fn sorted_desc(s: Seq<MetaView>) -> bool {
    forall|i: int, j: int|
        0 <= i < j < s.len() ==> !lex_lt((#[trigger] s[i]).timestamp, (#[trigger] s[j]).timestamp)
}

/// Inserting anywhere adds one occurrence to the multiset.
proof fn lemma_to_multiset_insert<A>(s: Seq<A>, j: int, m: A)
    requires
        0 <= j <= s.len(),
    ensures
        s.insert(j, m).to_multiset() == s.to_multiset().insert(m),
{
    broadcast use vstd::seq_lib::group_to_multiset_ensures;
    broadcast use vstd::multiset::group_multiset_axioms;

    assert(s.insert(j, m) =~= s.take(j).push(m) + s.skip(j));
    vstd::seq_lib::lemma_multiset_commutative(s.take(j).push(m), s.skip(j));
    vstd::seq_lib::lemma_multiset_commutative(s.take(j), s.skip(j));
    assert(s.take(j) + s.skip(j) =~= s);
    assert(s.take(j).push(m).to_multiset() =~= s.take(j).to_multiset().insert(m));
    assert(s.take(j).to_multiset().insert(m).add(s.skip(j).to_multiset()) =~= s.take(
        j,
    ).to_multiset().add(s.skip(j).to_multiset()).insert(m));
}

impl BackupStore {
    /// Every snapshot record of one original file, newest first by
    /// timestamp.  A missing backup directory simply yields no records;
    /// sidecars that fail to decode are skipped.
    pub fn list_backups(&self, file_path: &str) -> (r: Vec<BackupMetadata>)
        requires
            self.wf(),
        ensures
            r@.map_values(|m: BackupMetadata| m@).to_multiset() == listing_seq(
                self.disk.entries(),
                backup_dir_of(self.root@, file_path@),
            ).to_multiset(),
            sorted_desc(r@.map_values(|m: BackupMetadata| m@)),
    {
        broadcast use vstd::seq_lib::group_to_multiset_ensures;

        let ghost dirv = backup_dir_of(self.root@, file_path@);
        let dir = backup_dir_exec(self.root.as_str(), file_path);
        let n = self.disk.file_count();
        let mut out: Vec<BackupMetadata> = Vec::new();
        let mut i: usize = 0;
        proof {
            assert(out@.map_values(|m: BackupMetadata| m@) =~= Seq::<MetaView>::empty());
            assert(listing_seq(self.disk.entries().take(0), dirv) == Seq::<MetaView>::empty());
        }
        while i < n
            invariant
                self.wf(),
                n == self.disk.entries().len(),
                i <= n,
                dirv == dir@,
                out@.map_values(|m: BackupMetadata| m@).to_multiset() == listing_seq(
                    self.disk.entries().take(i as int),
                    dirv,
                ).to_multiset(),
                sorted_desc(out@.map_values(|m: BackupMetadata| m@)),
            decreases n - i,
        {
            let ghost s = self.disk.entries();
            proof {
                assert(s.take(i + 1).drop_last() =~= s.take(i as int));
                assert(s.take(i + 1).last() == s[i as int]);
            }
            let f = self.disk.file_at(i);
            if in_dir_exec(f.path.as_str(), dir.as_str()) && ends_with_str(
                f.path.as_str(),
                ".json",
            ) {
                match crate::text::utf8_to_string(clone_bytes(&f.data)) {
                    None => {},
                    Some(text) => {
                        proof {
                            vstd::utf8::encode_utf8_decode_utf8(text@);
                        }
                        match BackupMetadata::from_json(text.as_str()) {
                            None => {},
                            Some(m) => {
                                // Insert in timestamp order, newest first.
                                let ghost views = out@.map_values(|x: BackupMetadata| x@);
                                let mut j: usize = 0;
                                let olen = out.len();
                                while j < olen && !lex_less(
                                    out[j].timestamp.as_str(),
                                    m.timestamp.as_str(),
                                )
                                    invariant
                                        olen == out@.len(),
                                        j <= olen,
                                        views == out@.map_values(|x: BackupMetadata| x@),
                                        forall|k: int|
                                            0 <= k < j ==> !lex_lt(
                                                (#[trigger] views[k]).timestamp,
                                                m@.timestamp,
                                            ),
                                    decreases olen - j,
                                {
                                    j += 1;
                                }
                                proof {
                                    if j < olen {
                                        assert(lex_lt(views[j as int].timestamp, m@.timestamp));
                                    }
                                    lemma_to_multiset_insert(views, j as int, m@);
                                    assert(out@.insert(j as int, m).map_values(
                                        |x: BackupMetadata| x@,
                                    ) =~= views.insert(j as int, m@));
                                    // Order is kept on both sides of the
                                    // insertion point.
                                    let nv = views.insert(j as int, m@);
                                    assert forall|a: int, b: int|
                                        0 <= a < b < nv.len() implies !lex_lt(
                                        (#[trigger] nv[a]).timestamp,
                                        (#[trigger] nv[b]).timestamp,
                                    ) by {
                                        if a < j && b == j {
                                        } else if a == j && b > j {
                                            let w = views[b - 1];
                                            if lex_lt(m@.timestamp, w.timestamp) {
                                                if j < olen {
                                                    if b - 1 > j {
                                                        assert(!lex_lt(
                                                            views[j as int].timestamp,
                                                            w.timestamp,
                                                        ));
                                                        crate::text::lemma_lex_trans(
                                                            views[j as int].timestamp,
                                                            m@.timestamp,
                                                            w.timestamp,
                                                        );
                                                        assert(false);
                                                    } else {
                                                        crate::text::lemma_lex_trans(
                                                            views[j as int].timestamp,
                                                            m@.timestamp,
                                                            views[j as int].timestamp,
                                                        );
                                                        crate::text::lemma_lex_irrefl(
                                                            views[j as int].timestamp,
                                                        );
                                                        assert(false);
                                                    }
                                                } else {
                                                    assert(false);
                                                }
                                            }
                                        } else if a < j && b > j {
                                        } else {
                                        }
                                    }
                                }
                                out.insert(j, m);
                                proof {
                                    assert(out@.map_values(|x: BackupMetadata| x@)
                                        =~= views.insert(j as int, m@));
                                    assert(m@ == p_meta(decode_utf8(s[i as int].data@))->Some_0);
                                    assert(listing_seq(s.take(i + 1), dirv) == listing_seq(
                                        s.take(i as int),
                                        dirv,
                                    ).push(m@));
                                    listing_seq(s.take(i as int), dirv).to_multiset_ensures();
                                    assert(listing_seq(s.take(i as int), dirv).push(
                                        m@,
                                    ).to_multiset() =~= listing_seq(
                                        s.take(i as int),
                                        dirv,
                                    ).to_multiset().insert(m@));
                                    assert(listing_seq(s.take(i + 1), dirv).to_multiset()
                                        =~= listing_seq(s.take(i as int), dirv).to_multiset()
                                        .insert(m@));
                                    assert(views.insert(j as int, m@).to_multiset()
                                        =~= views.to_multiset().insert(m@));
                                }
                            },
                        }
                    },
                }
            }
            i += 1;
        }
        proof {
            assert(self.disk.entries().take(n as int) =~= self.disk.entries());
        }
        out
    }
}


// ------------------------------------------------------------------
// Store-wide statistics.

/// Aggregate numbers over every snapshot of the store.
#[derive(Debug, Clone)]
pub struct BackupStats {
    pub total_backups: usize,
    pub total_size_bytes: u64,
    pub oldest_backup: Option<String>,
    pub newest_backup: Option<String>,
}

/// The mathematical content of the statistics.
pub struct StatsView {
    pub total: nat,
    pub size: u64,
    pub oldest: Option<Seq<char>>,
    pub newest: Option<Seq<char>>,
}

impl View for BackupStats {
    type V = StatsView;

    open spec fn view(&self) -> StatsView {
        StatsView {
            total: self.total_backups as nat,
            size: self.total_size_bytes,
            oldest: match self.oldest_backup {
                Some(ref s) => Some(s@),
                None => None,
            },
            newest: match self.newest_backup {
                Some(ref s) => Some(s@),
                None => None,
            },
        }
    }
}

/// The timestamp a snapshot's sidecar records, if it decodes.
pub open spec fn sidecar_stamp(c: Map<Seq<char>, FileView>, p: Seq<char>) -> Option<Seq<char>> {
    let sc = sidecar_of(p);
    if c.contains_key(sc) && valid_utf8(c[sc].data) && p_meta(decode_utf8(c[sc].data)) is Some {
        Some(p_meta(decode_utf8(c[sc].data))->Some_0.timestamp)
    } else {
        None
    }
}

/// The statistics over the first entries of the walk: snapshot count,
/// byte total (saturating), and the least and greatest sidecar timestamp.
pub open spec fn stats_spec(s: Seq<DiskFile>, c: Map<Seq<char>, FileView>, root: Seq<char>) -> StatsView
    decreases s.len(),
{
    if s.len() == 0 {
        StatsView { total: 0, size: 0, oldest: None, newest: None }
    } else {
        let prev = stats_spec(s.drop_last(), c, root);
        let f = s.last();
        if f.kind is Regular && under_root(f.path@, root) && is_snapshot_name(base_name(f.path@)) {
            let size2: u64 = if prev.size + f.data@.len() > u64::MAX {
                u64::MAX
            } else {
                (prev.size + f.data@.len()) as u64
            };
            let stamp = sidecar_stamp(c, f.path@);
            let oldest2 = match stamp {
                None => prev.oldest,
                Some(ts) => match prev.oldest {
                    None => Some(ts),
                    Some(o) => if lex_lt(ts, o) {
                        Some(ts)
                    } else {
                        Some(o)
                    },
                },
            };
            let newest2 = match stamp {
                None => prev.newest,
                Some(ts) => match prev.newest {
                    None => Some(ts),
                    Some(w) => if lex_lt(w, ts) {
                        Some(ts)
                    } else {
                        Some(w)
                    },
                },
            };
            StatsView { total: prev.total + 1, size: size2, oldest: oldest2, newest: newest2 }
        } else {
            prev
        }
    }
}

impl BackupStore {
    /// Counts every snapshot in the store, sums their sizes (saturating),
    /// and finds the oldest and newest recorded timestamps.
    pub fn get_backup_stats(&self) -> (r: BackupStats)
        requires
            self.wf(),
        ensures
            r@ == stats_spec(self.disk.entries(), self.disk.contents(), self.root@),
    {
        let n = self.disk.file_count();
        let mut total: usize = 0;
        let mut size: u64 = 0;
        let mut oldest: Option<String> = None;
        let mut newest: Option<String> = None;
        let mut i: usize = 0;
        while i < n
            invariant
                self.wf(),
                n == self.disk.entries().len(),
                i <= n,
                total <= i,
                (BackupStats {
                    total_backups: total,
                    total_size_bytes: size,
                    oldest_backup: oldest,
                    newest_backup: newest,
                })@ == stats_spec(
                    self.disk.entries().take(i as int),
                    self.disk.contents(),
                    self.root@,
                ),
            decreases n - i,
        {
            let ghost s = self.disk.entries();
            proof {
                assert(s.take(i + 1).drop_last() =~= s.take(i as int));
                assert(s.take(i + 1).last() == s[i as int]);
            }
            let f = self.disk.file_at(i);
            let is_reg = match f.kind {
                FileKind::Regular => true,
                FileKind::Directory => false,
            };
            let bn = base_name_exec(f.path.as_str());
            if is_reg && under_root_exec(f.path.as_str(), self.root.as_str())
                && is_snapshot_name_exec(bn.as_str()) {
                total = total + 1;
                size = size.saturating_add(f.data.len() as u64);
                let mut scp = f.path.clone();
                scp.append(".backup.json");
                match self.disk.lookup(scp.as_str()) {
                    None => {},
                    Some(sf) => {
                        match crate::text::utf8_to_string(clone_bytes(&sf.data)) {
                            None => {},
                            Some(text) => {
                                proof {
                                    vstd::utf8::encode_utf8_decode_utf8(text@);
                                }
                                match BackupMetadata::from_json(text.as_str()) {
                                    None => {},
                                    Some(m) => {
                                        let better_old = match &oldest {
                                            None => true,
                                            Some(o) => lex_less(
                                                m.timestamp.as_str(),
                                                o.as_str(),
                                            ),
                                        };
                                        if better_old {
                                            oldest = Some(m.timestamp.clone());
                                        }
                                        let better_new = match &newest {
                                            None => true,
                                            Some(w) => lex_less(
                                                w.as_str(),
                                                m.timestamp.as_str(),
                                            ),
                                        };
                                        if better_new {
                                            newest = Some(m.timestamp);
                                        }
                                    },
                                }
                            },
                        }
                    },
                }
            }
            i += 1;
        }
        proof {
            assert(self.disk.entries().take(n as int) =~= self.disk.entries());
        }
        BackupStats {
            total_backups: total,
            total_size_bytes: size,
            oldest_backup: oldest,
            newest_backup: newest,
        }
    }
}

} // verus!
