//! Snapshot records and their sidecar encoding.
//!
//! Each snapshot is described by a `BackupMetadata` record, persisted as one
//! JSON object beside the copied bytes.  The encoder and the decoder are both
//! verified against the same specification-level grammar, and decoding an
//! encoded record is proved to give the record back.

use vstd::prelude::*;
use vstd::string::StrSliceExecFns;
use vstd::string::StringExecFns;

use crate::text::match_at;
use crate::text::push_char;
use crate::text::u64_to_string;
use crate::text::dec_digit;
use crate::text::dec_digits;

verus! {

/// Why a snapshot was taken.  Purely descriptive; carries no behaviour.
#[derive(Debug, Clone)]
pub enum BackupReason {
    Manual,
    PrePackageOperation(String),
    PreServiceOperation(String),
    PreFstabModification,
    PreSystemChange,
}

/// The mathematical content of a reason.
pub enum ReasonView {
    Manual,
    PrePackageOperation(Seq<char>),
    PreServiceOperation(Seq<char>),
    PreFstabModification,
    PreSystemChange,
}

impl View for BackupReason {
    type V = ReasonView;

    open spec fn view(&self) -> ReasonView {
        match self {
            BackupReason::Manual => ReasonView::Manual,
            BackupReason::PrePackageOperation(op) => ReasonView::PrePackageOperation(op@),
            BackupReason::PreServiceOperation(op) => ReasonView::PreServiceOperation(op@),
            BackupReason::PreFstabModification => ReasonView::PreFstabModification,
            BackupReason::PreSystemChange => ReasonView::PreSystemChange,
        }
    }
}

/// The one-line description of a reason.
pub open spec fn description_of(r: ReasonView) -> Seq<char> {
    match r {
        ReasonView::Manual => "Manual backup"@,
        ReasonView::PrePackageOperation(op) => "Before package operation: "@ + op,
        ReasonView::PreServiceOperation(op) => "Before service operation: "@ + op,
        ReasonView::PreFstabModification => "Before fstab modification"@,
        ReasonView::PreSystemChange => "Before system change"@,
    }
}

impl BackupReason {
    /// Renders the reason for people.
    pub fn description(&self) -> (r: String)
        ensures
            r@ == description_of(self@),
    {
        match self {
            BackupReason::Manual => String::from_str("Manual backup"),
            BackupReason::PrePackageOperation(op) => String::from_str(
                "Before package operation: ",
            ).concat(op.as_str()),
            BackupReason::PreServiceOperation(op) => String::from_str(
                "Before service operation: ",
            ).concat(op.as_str()),
            BackupReason::PreFstabModification => String::from_str("Before fstab modification"),
            BackupReason::PreSystemChange => String::from_str("Before system change"),
        }
    }
}

/// The persisted record of one snapshot.  Immutable once written: the
/// checksum is the digest of the copied bytes as captured at creation time
/// and is never recomputed or edited afterwards.
#[derive(Debug, Clone)]
pub struct BackupMetadata {
    pub original_path: String,
    pub backup_path: String,
    pub timestamp: String,
    pub reason: BackupReason,
    pub checksum: String,
    pub size_bytes: u64,
}

/// The mathematical content of a snapshot record.
pub struct MetaView {
    pub original_path: Seq<char>,
    pub backup_path: Seq<char>,
    pub timestamp: Seq<char>,
    pub reason: ReasonView,
    pub checksum: Seq<char>,
    pub size_bytes: u64,
}

impl View for BackupMetadata {
    type V = MetaView;

    open spec fn view(&self) -> MetaView {
        MetaView {
            original_path: self.original_path@,
            backup_path: self.backup_path@,
            timestamp: self.timestamp@,
            reason: self.reason@,
            checksum: self.checksum@,
            size_bytes: self.size_bytes,
        }
    }
}

// ------------------------------------------------------------------
// The string escaping rule.

/// The characters a JSON string escapes, and how one character is written.
pub open spec fn esc_char(c: char) -> Seq<char> {
    if c == '"' {
        seq!['\\', '"']
    } else if c == '\\' {
        seq!['\\', '\\']
    } else if c == '\n' {
        seq!['\\', 'n']
    } else if c == '\r' {
        seq!['\\', 'r']
    } else if c == '\t' {
        seq!['\\', 't']
    } else {
        seq![c]
    }
}

/// A whole string escaped, character by character.
pub open spec fn esc_string(s: Seq<char>) -> Seq<char>
    decreases s.len(),
{
    if s.len() == 0 {
        Seq::empty()
    } else {
        esc_char(s[0]) + esc_string(s.drop_first())
    }
}

/// A quoted, escaped JSON string.
pub open spec fn json_string(s: Seq<char>) -> Seq<char> {
    seq!['"'] + esc_string(s) + seq!['"']
}

/// Appends one escaped character to `out`.
fn emit_esc_char(out: &mut String, c: char)
    ensures
        final(out)@ == old(out)@ + esc_char(c),
{
    if c == '"' {
        push_char(out, '\\');
        push_char(out, '"');
    } else if c == '\\' {
        push_char(out, '\\');
        push_char(out, '\\');
    } else if c == '\n' {
        push_char(out, '\\');
        push_char(out, 'n');
    } else if c == '\r' {
        push_char(out, '\\');
        push_char(out, 'r');
    } else if c == '\t' {
        push_char(out, '\\');
        push_char(out, 't');
    } else {
        push_char(out, c);
    }
    proof {
        assert(final(out)@ =~= old(out)@ + esc_char(c));
    }
}

/// Escaping distributes over taking one more character.
proof fn lemma_esc_take(s: Seq<char>, i: int)
    requires
        0 <= i < s.len(),
    ensures
        esc_string(s.take(i + 1)) == esc_string(s.take(i)) + esc_char(s[i]),
    decreases i,
{
    if i == 0 {
        assert(s.take(1) =~= seq![s[0]]);
        assert(s.take(1).drop_first() =~= Seq::<char>::empty());
        assert(s.take(0) =~= Seq::<char>::empty());
        assert(esc_string(Seq::<char>::empty()) == Seq::<char>::empty());
        assert(esc_char(s[0]) + Seq::<char>::empty() =~= esc_char(s[0]));
        assert(esc_string(s.take(1)) =~= esc_char(s[0]));
    } else {
        let t = s.drop_first();
        assert(s.take(i + 1).drop_first() =~= t.take(i));
        assert(s.take(i).drop_first() =~= t.take(i - 1));
        assert(s.take(i + 1)[0] == s[0]);
        assert(s.take(i)[0] == s[0]);
        lemma_esc_take(t, i - 1);
        assert(t[i - 1] == s[i]);
        assert(esc_string(s.take(i + 1)) == esc_char(s[0]) + esc_string(t.take(i)));
        assert(esc_string(s.take(i)) == esc_char(s[0]) + esc_string(t.take(i - 1)));
        assert(esc_char(s[0]) + (esc_string(t.take(i - 1)) + esc_char(s[i])) =~= (esc_char(s[0])
            + esc_string(t.take(i - 1))) + esc_char(s[i]));
    }
}

/// Appends the quoted, escaped form of `s` to `out`.
pub(crate) fn emit_json_string(out: &mut String, s: &str)
    ensures
        final(out)@ == old(out)@ + json_string(s@),
{
    let n = s.unicode_len();
    push_char(out, '"');
    let mut i: usize = 0;
    proof {
        assert(s@.take(0) =~= Seq::<char>::empty());
        assert(out@ =~= old(out)@ + seq!['"'] + esc_string(s@.take(0)));
    }
    while i < n
        invariant
            n == s@.len(),
            i <= n,
            out@ == old(out)@ + seq!['"'] + esc_string(s@.take(i as int)),
        decreases n - i,
    {
        emit_esc_char(out, s.get_char(i));
        proof {
            lemma_esc_take(s@, i as int);
        }
        i += 1;
    }
    push_char(out, '"');
    proof {
        assert(s@.take(n as int) =~= s@);
        assert(old(out)@ + seq!['"'] + esc_string(s@) + seq!['"'] =~= old(out)@ + json_string(s@));
    }
}

// ------------------------------------------------------------------
// The sidecar grammar.

/// The encoding of a reason: a tagged object.
pub open spec fn reason_json(r: ReasonView) -> Seq<char> {
    match r {
        ReasonView::Manual => "{\"type\":\"Manual\"}"@,
        ReasonView::PrePackageOperation(op) => "{\"type\":\"PrePackageOperation\",\"operation\":"@
            + json_string(op) + "}"@,
        ReasonView::PreServiceOperation(op) => "{\"type\":\"PreServiceOperation\",\"operation\":"@
            + json_string(op) + "}"@,
        ReasonView::PreFstabModification => "{\"type\":\"PreFstabModification\"}"@,
        ReasonView::PreSystemChange => "{\"type\":\"PreSystemChange\"}"@,
    }
}

/// The encoding of a whole snapshot record: one JSON object.
pub open spec fn metadata_json(v: MetaView) -> Seq<char> {
    "{\"original_path\":"@ + json_string(v.original_path) + ",\"backup_path\":"@ + json_string(
        v.backup_path,
    ) + ",\"timestamp\":"@ + json_string(v.timestamp) + ",\"reason\":"@ + reason_json(v.reason)
        + ",\"checksum\":"@ + json_string(v.checksum) + ",\"size_bytes\":"@ + dec_digits(
        v.size_bytes as nat,
    ) + "}"@
}

impl BackupMetadata {
    /// Renders the record as its sidecar line.
    pub fn to_json(&self) -> (r: String)
        ensures
            r@ == metadata_json(self@),
    {
        let mut out = String::new();
        out.append("{\"original_path\":");
        emit_json_string(&mut out, self.original_path.as_str());
        out.append(",\"backup_path\":");
        emit_json_string(&mut out, self.backup_path.as_str());
        out.append(",\"timestamp\":");
        emit_json_string(&mut out, self.timestamp.as_str());
        out.append(",\"reason\":");
        match &self.reason {
            BackupReason::Manual => out.append("{\"type\":\"Manual\"}"),
            BackupReason::PrePackageOperation(op) => {
                out.append("{\"type\":\"PrePackageOperation\",\"operation\":");
                emit_json_string(&mut out, op.as_str());
                out.append("}");
            },
            BackupReason::PreServiceOperation(op) => {
                out.append("{\"type\":\"PreServiceOperation\",\"operation\":");
                emit_json_string(&mut out, op.as_str());
                out.append("}");
            },
            BackupReason::PreFstabModification => out.append("{\"type\":\"PreFstabModification\"}"),
            BackupReason::PreSystemChange => out.append("{\"type\":\"PreSystemChange\"}"),
        }
        out.append(",\"checksum\":");
        emit_json_string(&mut out, self.checksum.as_str());
        out.append(",\"size_bytes\":");
        let num = u64_to_string(self.size_bytes);
        out.append(num.as_str());
        out.append("}");
        proof {
            assert(out@ =~= metadata_json(self@));
        }
        out
    }
}

// ------------------------------------------------------------------
// The decoder, specified over character sequences.

/// Consumes a literal prefix.
pub open spec fn p_lit(s: Seq<char>, lit: Seq<char>) -> Option<Seq<char>> {
    if s.len() >= lit.len() && s.take(lit.len() as int) == lit {
        Some(s.skip(lit.len() as int))
    } else {
        None
    }
}

/// The character an escape code stands for.
pub open spec fn unesc(e: char) -> char {
    if e == '"' {
        '"'
    } else if e == '\\' {
        '\\'
    } else if e == 'n' {
        '\n'
    } else if e == 'r' {
        '\r'
    } else {
        '\t'
    }
}

/// Consumes the body of a quoted string up to and including the closing
/// quote, undoing the escaping.
pub open spec fn p_jstr_body(s: Seq<char>) -> Option<(Seq<char>, Seq<char>)>
    decreases s.len(),
{
    if s.len() == 0 {
        None
    } else if s[0] == '"' {
        Some((Seq::empty(), s.skip(1)))
    } else if s[0] == '\\' {
        if s.len() < 2 {
            None
        } else if s[1] == '"' || s[1] == '\\' || s[1] == 'n' || s[1] == 'r' || s[1] == 't' {
            match p_jstr_body(s.skip(2)) {
                Some((t, r)) => Some((seq![unesc(s[1])] + t, r)),
                None => None,
            }
        } else {
            None
        }
    } else {
        match p_jstr_body(s.skip(1)) {
            Some((t, r)) => Some((seq![s[0]] + t, r)),
            None => None,
        }
    }
}

/// Consumes a quoted string.
pub open spec fn p_jstr(s: Seq<char>) -> Option<(Seq<char>, Seq<char>)> {
    if s.len() > 0 && s[0] == '"' {
        p_jstr_body(s.skip(1))
    } else {
        None
    }
}

/// Whether `c` is a decimal digit.
pub open spec fn is_digit(c: char) -> bool {
    48 <= c as u32 && c as u32 <= 57
}

/// The value of a digit character.
pub open spec fn digit_val(c: char) -> int {
    c as u32 - 48
}

/// Consumes digits greedily into an accumulator, refusing values beyond
/// the 64-bit range.
pub open spec fn p_num_loop(s: Seq<char>, acc: u64) -> Option<(u64, Seq<char>)>
    decreases s.len(),
{
    if s.len() > 0 && is_digit(s[0]) {
        if acc * 10 + digit_val(s[0]) <= u64::MAX {
            p_num_loop(s.skip(1), (acc * 10 + digit_val(s[0])) as u64)
        } else {
            None
        }
    } else {
        Some((acc, s))
    }
}

/// Consumes a decimal number of at least one digit.
pub open spec fn p_num(s: Seq<char>) -> Option<(u64, Seq<char>)> {
    if s.len() > 0 && is_digit(s[0]) {
        p_num_loop(s, 0)
    } else {
        None
    }
}

/// Consumes a tagged reason object.
pub open spec fn p_reason(s: Seq<char>) -> Option<(ReasonView, Seq<char>)> {
    if p_lit(s, "{\"type\":\"Manual\"}"@) is Some {
        Some((ReasonView::Manual, p_lit(s, "{\"type\":\"Manual\"}"@)->Some_0))
    } else if p_lit(s, "{\"type\":\"PreFstabModification\"}"@) is Some {
        Some(
            (
                ReasonView::PreFstabModification,
                p_lit(s, "{\"type\":\"PreFstabModification\"}"@)->Some_0,
            ),
        )
    } else if p_lit(s, "{\"type\":\"PreSystemChange\"}"@) is Some {
        Some((ReasonView::PreSystemChange, p_lit(s, "{\"type\":\"PreSystemChange\"}"@)->Some_0))
    } else if p_lit(s, "{\"type\":\"PrePackageOperation\",\"operation\":"@) is Some {
        let s1 = p_lit(s, "{\"type\":\"PrePackageOperation\",\"operation\":"@)->Some_0;
        match p_jstr(s1) {
            Some((op, s2)) => match p_lit(s2, "}"@) {
                Some(s3) => Some((ReasonView::PrePackageOperation(op), s3)),
                None => None,
            },
            None => None,
        }
    } else if p_lit(s, "{\"type\":\"PreServiceOperation\",\"operation\":"@) is Some {
        let s1 = p_lit(s, "{\"type\":\"PreServiceOperation\",\"operation\":"@)->Some_0;
        match p_jstr(s1) {
            Some((op, s2)) => match p_lit(s2, "}"@) {
                Some(s3) => Some((ReasonView::PreServiceOperation(op), s3)),
                None => None,
            },
            None => None,
        }
    } else {
        None
    }
}

/// Decodes a whole sidecar line.  `Some` exactly when the line is a
/// record as this module writes it, with nothing after the closing brace.
pub open spec fn p_meta(s: Seq<char>) -> Option<MetaView> {
    match p_lit(s, "{\"original_path\":"@) {
        None => None,
        Some(s1) => match p_jstr(s1) {
            None => None,
            Some((op, s2)) => match p_lit(s2, ",\"backup_path\":"@) {
                None => None,
                Some(s3) => match p_jstr(s3) {
                    None => None,
                    Some((bp, s4)) => match p_lit(s4, ",\"timestamp\":"@) {
                        None => None,
                        Some(s5) => match p_jstr(s5) {
                            None => None,
                            Some((ts, s6)) => match p_lit(s6, ",\"reason\":"@) {
                                None => None,
                                Some(s7) => match p_reason(s7) {
                                    None => None,
                                    Some((rs, s8)) => match p_lit(s8, ",\"checksum\":"@) {
                                        None => None,
                                        Some(s9) => match p_jstr(s9) {
                                            None => None,
                                            Some((ck, s10)) => match p_lit(
                                                s10,
                                                ",\"size_bytes\":"@,
                                            ) {
                                                None => None,
                                                Some(s11) => match p_num(s11) {
                                                    None => None,
                                                    Some((sz, s12)) => match p_lit(s12, "}"@) {
                                                        None => None,
                                                        Some(s13) => if s13.len() == 0 {
                                                            Some(
                                                                (MetaView {
                                                                    original_path: op,
                                                                    backup_path: bp,
                                                                    timestamp: ts,
                                                                    reason: rs,
                                                                    checksum: ck,
                                                                    size_bytes: sz,
                                                                }),
                                                            )
                                                        } else {
                                                            None
                                                        },
                                                    },
                                                },
                                            },
                                        },
                                    },
                                },
                            },
                        },
                    },
                },
            },
        },
    }
}

// ------------------------------------------------------------------
// The decoder, as executable code over a string and a cursor.

/// Consumes `lit` at position `i`, returning the position after it.
fn expect_lit(s: &str, i: usize, lit: &str) -> (r: Option<usize>)
    requires
        i <= s@.len(),
    ensures
        match r {
            Some(j) => i <= j <= s@.len() && j == i + lit@.len() && p_lit(s@.skip(i as int), lit@)
                == Some(s@.skip(j as int)),
            None => p_lit(s@.skip(i as int), lit@) is None,
        },
{
    let slen = s.unicode_len();
    let plen = lit.unicode_len();
    if plen > slen - i {
        return None;
    }
    if match_at(s, lit, i) {
        proof {
            assert(s@.skip(i as int).take(lit@.len() as int) =~= s@.subrange(
                i as int,
                i + lit@.len(),
            ));
            assert(s@.skip(i as int).skip(lit@.len() as int) =~= s@.skip(i + lit@.len()));
        }
        Some(i + plen)
    } else {
        proof {
            assert(s@.skip(i as int).take(lit@.len() as int) =~= s@.subrange(
                i as int,
                i + lit@.len(),
            ));
        }
        None
    }
}

/// Consumes a quoted string at position `i`, undoing the escaping.
fn parse_jstr(s: &str, i: usize) -> (r: Option<(String, usize)>)
    requires
        i <= s@.len(),
    ensures
        match r {
            Some(v) => i <= v.1 <= s@.len() && p_jstr(s@.skip(i as int)) == Some(
                (v.0@, s@.skip(v.1 as int)),
            ),
            None => p_jstr(s@.skip(i as int)) is None,
        },
{
    let slen = s.unicode_len();
    if i >= slen {
        return None;
    }
    if s.get_char(i) != '"' {
        return None;
    }
    let mut acc = String::new();
    let mut k: usize = i + 1;
    proof {
        assert(s@.skip(i as int).skip(1) =~= s@.skip(i + 1));
        assert(s@.skip(i as int)[0] == s@[i as int]);
    }
    while k < slen
        invariant
            slen == s@.len(),
            i < slen,
            i + 1 <= k <= slen,
            p_jstr(s@.skip(i as int)) == (match p_jstr_body(s@.skip(k as int)) {
                Some((t, r)) => Some((acc@ + t, r)),
                None => None,
            }),
        decreases slen - k,
    {
        let ghost skk = s@.skip(k as int);
        proof {
            assert(skk[0] == s@[k as int]);
            assert(skk.len() == slen - k);
        }
        let c = s.get_char(k);
        if c == '"' {
            proof {
                assert(p_jstr_body(skk) == Some((Seq::<char>::empty(), skk.skip(1))));
                assert(acc@ + Seq::<char>::empty() =~= acc@);
                assert(skk.skip(1) =~= s@.skip(k + 1));
            }
            return Some((acc, k + 1));
        } else if c == '\\' {
            if k + 1 >= slen {
                proof {
                    assert(skk.len() < 2);
                    assert(p_jstr_body(skk) is None);
                }
                return None;
            }
            proof {
                assert(skk[1] == s@[k + 1]);
            }
            let e = s.get_char(k + 1);
            let dec: Option<char> = if e == '"' {
                Some('"')
            } else if e == '\\' {
                Some('\\')
            } else if e == 'n' {
                Some('\n')
            } else if e == 'r' {
                Some('\r')
            } else if e == 't' {
                Some('\t')
            } else {
                None
            };
            match dec {
                Some(d) => {
                    let ghost acc0 = acc@;
                    push_char(&mut acc, d);
                    proof {
                        assert(d == unesc(s@[k + 1]));
                        assert(skk.skip(2) =~= s@.skip(k + 2));
                        let b = p_jstr_body(s@.skip(k + 2));
                        if b is Some {
                            let pair = b->Some_0;
                            assert(acc0 + (seq![d] + pair.0) =~= (acc0 + seq![d]) + pair.0);
                        }
                    }
                    k = k + 2;
                },
                None => {
                    proof {
                        assert(p_jstr_body(skk) is None);
                    }
                    return None;
                },
            }
        } else {
            let ghost acc0 = acc@;
            push_char(&mut acc, c);
            proof {
                assert(skk.skip(1) =~= s@.skip(k + 1));
                let b = p_jstr_body(s@.skip(k + 1));
                if b is Some {
                    let pair = b->Some_0;
                    assert(acc0 + (seq![c] + pair.0) =~= (acc0 + seq![c]) + pair.0);
                }
            }
            k = k + 1;
        }
    }
    proof {
        assert(s@.skip(k as int).len() == 0);
        assert(p_jstr_body(s@.skip(k as int)) is None);
    }
    None
}

/// Whether position `k` of `s` holds a decimal digit.
fn digit_at(s: &str, k: usize) -> (r: bool)
    requires
        k <= s@.len(),
    ensures
        r == (k < s@.len() && is_digit(s@[k as int])),
{
    if k >= s.unicode_len() {
        false
    } else {
        let c = s.get_char(k);
        '0' <= c && c <= '9'
    }
}

/// Consumes a decimal number at position `i`.
fn parse_num(s: &str, i: usize) -> (r: Option<(u64, usize)>)
    requires
        i <= s@.len(),
    ensures
        match r {
            Some(v) => i <= v.1 <= s@.len() && p_num(s@.skip(i as int)) == Some(
                (v.0, s@.skip(v.1 as int)),
            ),
            None => p_num(s@.skip(i as int)) is None,
        },
{
    let slen = s.unicode_len();
    if i >= slen {
        return None;
    }
    let c0 = s.get_char(i);
    if !('0' <= c0 && c0 <= '9') {
        proof {
            assert(s@.skip(i as int)[0] == s@[i as int]);
        }
        return None;
    }
    let mut val: u64 = 0;
    let mut k: usize = i;
    proof {
        assert(s@.skip(i as int)[0] == s@[i as int]);
    }
    while digit_at(s, k)
        invariant
            slen == s@.len(),
            i <= k <= slen,
            p_num(s@.skip(i as int)) == p_num_loop(s@.skip(k as int), val),
            k == i ==> val == 0,
            p_num(s@.skip(i as int)) is Some ==> p_num_loop(s@.skip(k as int), val) is Some,
        decreases slen - k,
    {
        let c = s.get_char(k);
        let d: u64 = (c as u32 - 48) as u64;
        proof {
            assert(s@.skip(k as int)[0] == s@[k as int]);
        }
        let next = match val.checked_mul(10) {
            Some(x) => x.checked_add(d),
            None => None,
        };
        match next {
            Some(x) => {
                proof {
                    assert(s@.skip(k as int).skip(1) =~= s@.skip(k + 1));
                }
                val = x;
                k = k + 1;
            },
            None => {
                proof {
                    assert(val * 10 + digit_val(s@[k as int]) > u64::MAX);
                    assert(p_num_loop(s@.skip(k as int), val) is None);
                }
                return None;
            },
        }
    }
    proof {
        let skk = s@.skip(k as int);
        if skk.len() > 0 {
            assert(skk[0] == s@[k as int]);
        }
        assert(p_num_loop(skk, val) == Some((val, skk)));
    }
    Some((val, k))
}

/// Consumes a tagged reason object at position `i`.
fn parse_reason(s: &str, i: usize) -> (r: Option<(BackupReason, usize)>)
    requires
        i <= s@.len(),
    ensures
        match r {
            Some(v) => i <= v.1 <= s@.len() && p_reason(s@.skip(i as int)) == Some(
                (v.0@, s@.skip(v.1 as int)),
            ),
            None => p_reason(s@.skip(i as int)) is None,
        },
{
    if let Some(j) = expect_lit(s, i, "{\"type\":\"Manual\"}") {
        return Some((BackupReason::Manual, j));
    }
    if let Some(j) = expect_lit(s, i, "{\"type\":\"PreFstabModification\"}") {
        return Some((BackupReason::PreFstabModification, j));
    }
    if let Some(j) = expect_lit(s, i, "{\"type\":\"PreSystemChange\"}") {
        return Some((BackupReason::PreSystemChange, j));
    }
    if let Some(j) = expect_lit(s, i, "{\"type\":\"PrePackageOperation\",\"operation\":") {
        if let Some((op, j2)) = parse_jstr(s, j) {
            if let Some(j3) = expect_lit(s, j2, "}") {
                return Some((BackupReason::PrePackageOperation(op), j3));
            }
        }
        return None;
    }
    if let Some(j) = expect_lit(s, i, "{\"type\":\"PreServiceOperation\",\"operation\":") {
        if let Some((op, j2)) = parse_jstr(s, j) {
            if let Some(j3) = expect_lit(s, j2, "}") {
                return Some((BackupReason::PreServiceOperation(op), j3));
            }
        }
        return None;
    }
    None
}

impl BackupMetadata {
    /// Decodes a sidecar line.  `Some` exactly when the line is a record
    /// as `to_json` writes it.
    pub fn from_json(s: &str) -> (r: Option<BackupMetadata>)
        ensures
            match r {
                Some(m) => p_meta(s@) == Some(m@),
                None => p_meta(s@) is None,
            },
    {
        let slen = s.unicode_len();
        proof {
            assert(s@.skip(0) =~= s@);
        }
        let j1 = match expect_lit(s, 0, "{\"original_path\":") {
            Some(j) => j,
            None => { return None; },
        };
        let (op, j2) = match parse_jstr(s, j1) {
            Some(v) => v,
            None => { return None; },
        };
        let j3 = match expect_lit(s, j2, ",\"backup_path\":") {
            Some(j) => j,
            None => { return None; },
        };
        let (bp, j4) = match parse_jstr(s, j3) {
            Some(v) => v,
            None => { return None; },
        };
        let j5 = match expect_lit(s, j4, ",\"timestamp\":") {
            Some(j) => j,
            None => { return None; },
        };
        let (ts, j6) = match parse_jstr(s, j5) {
            Some(v) => v,
            None => { return None; },
        };
        let j7 = match expect_lit(s, j6, ",\"reason\":") {
            Some(j) => j,
            None => { return None; },
        };
        let (rs, j8) = match parse_reason(s, j7) {
            Some(v) => v,
            None => { return None; },
        };
        let j9 = match expect_lit(s, j8, ",\"checksum\":") {
            Some(j) => j,
            None => { return None; },
        };
        let (ck, j10) = match parse_jstr(s, j9) {
            Some(v) => v,
            None => { return None; },
        };
        let j11 = match expect_lit(s, j10, ",\"size_bytes\":") {
            Some(j) => j,
            None => { return None; },
        };
        let (sz, j12) = match parse_num(s, j11) {
            Some(v) => v,
            None => { return None; },
        };
        let j13 = match expect_lit(s, j12, "}") {
            Some(j) => j,
            None => { return None; },
        };
        if j13 != slen {
            proof {
                assert(s@.skip(j13 as int).len() > 0);
            }
            return None;
        }
        proof {
            assert(s@.skip(j13 as int).len() == 0);
        }
        Some(
            BackupMetadata {
                original_path: op,
                backup_path: bp,
                timestamp: ts,
                reason: rs,
                checksum: ck,
                size_bytes: sz,
            },
        )
    }
}

// ------------------------------------------------------------------
// Decoding an encoded record gives the record back.

/// A literal prefix parses off exactly.
proof fn lemma_p_lit(lit: Seq<char>, rest: Seq<char>)
    ensures
        p_lit(lit + rest, lit) == Some(rest),
{
    assert((lit + rest).take(lit.len() as int) =~= lit);
    assert((lit + rest).skip(lit.len() as int) =~= rest);
}

/// The string body decoder undoes the escaping.
proof fn lemma_jstr_body(t: Seq<char>, rest: Seq<char>)
    ensures
        p_jstr_body(esc_string(t) + seq!['"'] + rest) == Some((t, rest)),
    decreases t.len(),
{
    let s = esc_string(t) + seq!['"'] + rest;
    if t.len() == 0 {
        assert(s =~= seq!['"'] + rest);
        assert(s[0] == '"');
        assert(s.skip(1) =~= rest);
    } else {
        let c = t[0];
        let t1 = t.drop_first();
        let s1 = esc_string(t1) + seq!['"'] + rest;
        lemma_jstr_body(t1, rest);
        assert(esc_string(t) == esc_char(c) + esc_string(t1));
        assert(seq![c] + t1 =~= t);
        if c == '"' || c == '\\' || c == '\n' || c == '\r' || c == '\t' {
            assert(esc_char(c).len() == 2);
            assert(s =~= esc_char(c) + s1);
            assert(s[0] == '\\');
            assert(s.len() >= 2);
            assert(s[1] == esc_char(c)[1]);
            assert(s.skip(2) =~= s1);
            assert(unesc(s[1]) == c);
        } else {
            assert(esc_char(c) =~= seq![c]);
            assert(s =~= seq![c] + s1);
            assert(s[0] == c);
            assert(s.skip(1) =~= s1);
        }
    }
}

/// The string decoder undoes the encoder.
proof fn lemma_jstr(t: Seq<char>, rest: Seq<char>)
    ensures
        p_jstr(json_string(t) + rest) == Some((t, rest)),
{
    let s = json_string(t) + rest;
    assert(s[0] == '"');
    assert(s.skip(1) =~= esc_string(t) + seq!['"'] + rest);
    lemma_jstr_body(t, rest);
}

/// Powers of ten.
spec fn pow10(k: nat) -> nat
    decreases k,
{
    if k == 0 {
        1
    } else {
        10 * pow10((k - 1) as nat)
    }
}

/// How many decimal digits a number has.
spec fn ndigits(m: nat) -> nat
    decreases m,
{
    if m < 10 {
        1
    } else {
        (1 + ndigits(m / 10)) as nat
    }
}

proof fn lemma_pow10_pos(k: nat)
    ensures
        pow10(k) >= 1,
    decreases k,
{
    if k > 0 {
        lemma_pow10_pos((k - 1) as nat);
    }
}

/// The first character of a decimal rendering is a digit, and digits
/// evaluate back to their values.
proof fn lemma_dec_digits_first(m: nat)
    ensures
        dec_digits(m).len() >= 1,
        is_digit(dec_digits(m)[0]),
    decreases m,
{
    if m < 10 {
        assert(is_digit(dec_digit(m as int)));
    } else {
        lemma_dec_digits_first(m / 10);
        assert(dec_digits(m)[0] == dec_digits(m / 10)[0]);
    }
}

/// Digit characters decode to their values.
proof fn lemma_digit_val(m: int)
    requires
        0 <= m < 10,
    ensures
        is_digit(dec_digit(m)),
        digit_val(dec_digit(m)) == m,
{
}

/// Consuming a decimal rendering multiplies the accumulator through.
proof fn lemma_num_chain(m: u64, acc: u64, rest: Seq<char>)
    requires
        acc * pow10(ndigits(m as nat)) + m <= u64::MAX,
    ensures
        p_num_loop(dec_digits(m as nat) + rest, acc) == p_num_loop(
            rest,
            (acc * pow10(ndigits(m as nat)) + m) as u64,
        ),
    decreases m,
{
    lemma_pow10_pos(ndigits(m as nat));
    if m < 10 {
        let s = dec_digits(m as nat) + rest;
        assert(dec_digits(m as nat) == seq![dec_digit(m as int)]);
        assert(s[0] == dec_digit(m as int));
        lemma_digit_val(m as int);
        assert(pow10(0) == 1);
        assert(pow10(1) == 10);
        assert(s.skip(1) =~= rest);
    } else {
        let hi: u64 = m / 10;
        let lo: u64 = m % 10;
        let d = ndigits(hi as nat);
        assert(ndigits(m as nat) == d + 1);
        assert(pow10((d + 1) as nat) == 10 * pow10(d));
        assert(acc * pow10(d) + hi <= u64::MAX) by (nonlinear_arith)
            requires
                acc * pow10((d + 1) as nat) + m <= u64::MAX,
                pow10((d + 1) as nat) == 10 * pow10(d),
                hi == m / 10,
                m >= 10,
                pow10(d) >= 1,
                acc >= 0,
        ;
        assert(dec_digits(m as nat) == dec_digits(hi as nat) + seq![dec_digit(lo as int)]);
        assert(dec_digits(m as nat) + rest =~= dec_digits(hi as nat) + (seq![
            dec_digit(lo as int),
        ] + rest));
        lemma_num_chain(hi, acc, seq![dec_digit(lo as int)] + rest);
        let acc2: u64 = (acc * pow10(d) + hi) as u64;
        let s2 = seq![dec_digit(lo as int)] + rest;
        assert(s2[0] == dec_digit(lo as int));
        lemma_digit_val(lo as int);
        assert(acc2 * 10 + lo == acc * pow10((d + 1) as nat) + m) by (nonlinear_arith)
            requires
                acc2 == acc * pow10(d) + hi,
                pow10((d + 1) as nat) == 10 * pow10(d),
                hi == m / 10,
                lo == m % 10,
                m >= 10,
        ;
        assert(s2.skip(1) =~= rest);
    }
}

/// The number decoder undoes the decimal rendering, provided the next
/// character is not a digit.
proof fn lemma_p_num(n: u64, rest: Seq<char>)
    requires
        rest.len() == 0 || !is_digit(rest[0]),
    ensures
        p_num(dec_digits(n as nat) + rest) == Some((n, rest)),
{
    lemma_dec_digits_first(n as nat);
    lemma_pow10_pos(ndigits(n as nat));
    let s = dec_digits(n as nat) + rest;
    assert(s[0] == dec_digits(n as nat)[0]);
    assert(0 * pow10(ndigits(n as nat)) + n <= u64::MAX);
    lemma_num_chain(n, 0, rest);
    assert((0 * pow10(ndigits(n as nat)) + n) as u64 == n);
    if rest.len() > 0 {
        assert(!is_digit(rest[0]));
    }
}

/// The reason decoder undoes the reason encoder.
proof fn lemma_reason(r: ReasonView, rest: Seq<char>)
    ensures
        p_reason(reason_json(r) + rest) == Some((r, rest)),
{
    let lman = "{\"type\":\"Manual\"}"@;
    let lfst = "{\"type\":\"PreFstabModification\"}"@;
    let lsys = "{\"type\":\"PreSystemChange\"}"@;
    let lpkg = "{\"type\":\"PrePackageOperation\",\"operation\":"@;
    let lsvc = "{\"type\":\"PreServiceOperation\",\"operation\":"@;
    reveal_strlit("{\"type\":\"Manual\"}");
    reveal_strlit("{\"type\":\"PreFstabModification\"}");
    reveal_strlit("{\"type\":\"PreSystemChange\"}");
    reveal_strlit("{\"type\":\"PrePackageOperation\",\"operation\":");
    reveal_strlit("{\"type\":\"PreServiceOperation\",\"operation\":");
    reveal_strlit("}");
    let s = reason_json(r) + rest;
    match r {
        ReasonView::Manual => {
            lemma_p_lit(lman, rest);
        },
        ReasonView::PreFstabModification => {
            assert(s[9] == 'P');
            if s.len() >= lman.len() {
                assert(s.take(lman.len() as int)[9] == 'P');
                assert(s.take(lman.len() as int) != lman);
            }
            lemma_p_lit(lfst, rest);
        },
        ReasonView::PreSystemChange => {
            assert(s[9] == 'P');
            if s.len() >= lman.len() {
                assert(s.take(lman.len() as int)[9] == 'P');
                assert(s.take(lman.len() as int) != lman);
            }
            assert(s[12] == 'S');
            if s.len() >= lfst.len() {
                assert(s.take(lfst.len() as int)[12] == 'S');
                assert(s.take(lfst.len() as int) != lfst);
            }
            lemma_p_lit(lsys, rest);
        },
        ReasonView::PrePackageOperation(op) => {
            let tail = json_string(op) + ("}"@ + rest);
            assert(s =~= lpkg + tail);
            assert(s[9] == 'P');
            if s.len() >= lman.len() {
                assert(s.take(lman.len() as int)[9] == 'P');
                assert(s.take(lman.len() as int) != lman);
            }
            assert(s[12] == 'P');
            if s.len() >= lfst.len() {
                assert(s.take(lfst.len() as int)[12] == 'P');
                assert(s.take(lfst.len() as int) != lfst);
            }
            if s.len() >= lsys.len() {
                assert(s.take(lsys.len() as int)[12] == 'P');
                assert(s.take(lsys.len() as int) != lsys);
            }
            lemma_p_lit(lpkg, tail);
            lemma_jstr(op, "}"@ + rest);
            lemma_p_lit("}"@, rest);
            assert("}"@ + rest =~= "}"@ + rest);
        },
        ReasonView::PreServiceOperation(op) => {
            let tail = json_string(op) + ("}"@ + rest);
            assert(s =~= lsvc + tail);
            assert(s[9] == 'P');
            if s.len() >= lman.len() {
                assert(s.take(lman.len() as int)[9] == 'P');
                assert(s.take(lman.len() as int) != lman);
            }
            assert(s[12] == 'S');
            if s.len() >= lfst.len() {
                assert(s.take(lfst.len() as int)[12] == 'S');
                assert(s.take(lfst.len() as int) != lfst);
            }
            assert(s[13] == 'e');
            if s.len() >= lsys.len() {
                assert(s.take(lsys.len() as int)[13] == 'e');
                assert(s.take(lsys.len() as int) != lsys);
            }
            assert(s[12] == 'S');
            if s.len() >= lpkg.len() {
                assert(s.take(lpkg.len() as int)[12] == 'S');
                assert(s.take(lpkg.len() as int) != lpkg);
            }
            lemma_p_lit(lsvc, tail);
            lemma_jstr(op, "}"@ + rest);
            lemma_p_lit("}"@, rest);
        },
    }
}

/// Decoding an encoded record gives the record back.
#[verifier::rlimit(100)]
pub proof fn lemma_meta_round_trip(v: MetaView)
    ensures
        p_meta(metadata_json(v)) == Some(v),
{
    let l1 = "{\"original_path\":"@;
    let l2 = ",\"backup_path\":"@;
    let l3 = ",\"timestamp\":"@;
    let l4 = ",\"reason\":"@;
    let l5 = ",\"checksum\":"@;
    let l6 = ",\"size_bytes\":"@;
    let l7 = "}"@;
    let jop = json_string(v.original_path);
    let jbp = json_string(v.backup_path);
    let jts = json_string(v.timestamp);
    let rj = reason_json(v.reason);
    let jck = json_string(v.checksum);
    let num = dec_digits(v.size_bytes as nat);

    let c13 = Seq::<char>::empty();
    let c12 = l7 + c13;
    let c11 = num + c12;
    let c10 = l6 + c11;
    let c9 = jck + c10;
    let c8 = l5 + c9;
    let c7 = rj + c8;
    let c6 = l4 + c7;
    let c5 = jts + c6;
    let c4 = l3 + c5;
    let c3 = jbp + c4;
    let c2 = l2 + c3;
    let c1 = jop + c2;
    let s = metadata_json(v);
    assert(s =~= l1 + c1);

    lemma_p_lit(l1, c1);
    lemma_jstr(v.original_path, c2);
    lemma_p_lit(l2, c3);
    lemma_jstr(v.backup_path, c4);
    lemma_p_lit(l3, c5);
    lemma_jstr(v.timestamp, c6);
    lemma_p_lit(l4, c7);
    lemma_reason(v.reason, c8);
    lemma_p_lit(l5, c9);
    lemma_jstr(v.checksum, c10);
    lemma_p_lit(l6, c11);
    reveal_strlit("}");
    assert(c12[0] == '}');
    assert(!is_digit(c12[0]));
    lemma_p_num(v.size_bytes, c12);
    lemma_p_lit(l7, c13);
    assert(c12 =~= l7 + c13);
}


// ------------------------------------------------------------------
// How big an encoded record can get.

/// The length of a reason's string payload; zero for the plain variants.
pub open spec fn reason_payload(r: ReasonView) -> nat {
    match r {
        ReasonView::PrePackageOperation(op) => op.len(),
        ReasonView::PreServiceOperation(op) => op.len(),
        _ => 0,
    }
}

/// Escaping at most doubles a string.
proof fn lemma_esc_string_len(s: Seq<char>)
    ensures
        esc_string(s).len() <= 2 * s.len(),
    decreases s.len(),
{
    if s.len() > 0 {
        lemma_esc_string_len(s.drop_first());
    }
}

/// A quoted, escaped string is at most twice the original plus quotes.
proof fn lemma_json_string_len(s: Seq<char>)
    ensures
        json_string(s).len() <= 2 * s.len() + 2,
{
    lemma_esc_string_len(s);
}

proof fn lemma_pow10_20()
    ensures
        pow10(20) == 100000000000000000000,
{
    assert(pow10(0) == 1);
    assert(pow10(1) == 10);
    assert(pow10(2) == 100);
    assert(pow10(3) == 1000);
    assert(pow10(4) == 10000);
    assert(pow10(5) == 100000);
    assert(pow10(6) == 1000000);
    assert(pow10(7) == 10000000);
    assert(pow10(8) == 100000000);
    assert(pow10(9) == 1000000000);
    assert(pow10(10) == 10000000000);
    assert(pow10(11) == 100000000000);
    assert(pow10(12) == 1000000000000);
    assert(pow10(13) == 10000000000000);
    assert(pow10(14) == 100000000000000);
    assert(pow10(15) == 1000000000000000);
    assert(pow10(16) == 10000000000000000);
    assert(pow10(17) == 100000000000000000);
    assert(pow10(18) == 1000000000000000000);
    assert(pow10(19) == 10000000000000000000);
    assert(pow10(20) == 100000000000000000000);
}

/// A number below a power of ten has at most that many digits.
proof fn lemma_ndigits_bound(m: nat, k: nat)
    requires
        k >= 1,
        m < pow10(k),
    ensures
        ndigits(m) <= k,
    decreases k,
{
    if m >= 10 {
        assert(pow10(k) == 10 * pow10((k - 1) as nat));
        assert(m / 10 < pow10((k - 1) as nat)) by (nonlinear_arith)
            requires
                m < 10 * pow10((k - 1) as nat),
                m >= 10,
        ;
        assert(k >= 2) by {
            if k == 1 {
                assert(pow10(1) == 10);
            }
        }
        lemma_ndigits_bound(m / 10, (k - 1) as nat);
    }
}

/// The decimal rendering has as many characters as the number has digits.
proof fn lemma_dec_digits_is_ndigits(m: nat)
    ensures
        dec_digits(m).len() == ndigits(m),
    decreases m,
{
    if m >= 10 {
        lemma_dec_digits_is_ndigits(m / 10);
    }
}

/// A 64-bit number renders in at most twenty digits.
proof fn lemma_dec_digits_len_u64(n: u64)
    ensures
        dec_digits(n as nat).len() <= 20,
{
    lemma_pow10_20();
    lemma_ndigits_bound(n as nat, 20);
    lemma_dec_digits_is_ndigits(n as nat);
}

/// An encoded record is small: a fixed frame plus at most twice each
/// string field.
pub proof fn lemma_metadata_json_len(v: MetaView)
    ensures
        metadata_json(v).len() <= 200 + 2 * (v.original_path.len() + v.backup_path.len()
            + v.timestamp.len() + v.checksum.len() + reason_payload(v.reason)),
{
    reveal_strlit("{\"original_path\":");
    reveal_strlit(",\"backup_path\":");
    reveal_strlit(",\"timestamp\":");
    reveal_strlit(",\"reason\":");
    reveal_strlit(",\"checksum\":");
    reveal_strlit(",\"size_bytes\":");
    reveal_strlit("}");
    lemma_json_string_len(v.original_path);
    lemma_json_string_len(v.backup_path);
    lemma_json_string_len(v.timestamp);
    lemma_json_string_len(v.checksum);
    lemma_dec_digits_len_u64(v.size_bytes);
    assert(reason_json(v.reason).len() <= 60 + 2 * reason_payload(v.reason)) by {
        reveal_strlit("{\"type\":\"Manual\"}");
        reveal_strlit("{\"type\":\"PreFstabModification\"}");
        reveal_strlit("{\"type\":\"PreSystemChange\"}");
        reveal_strlit("{\"type\":\"PrePackageOperation\",\"operation\":");
        reveal_strlit("{\"type\":\"PreServiceOperation\",\"operation\":");
        reveal_strlit("}");
        match v.reason {
            ReasonView::PrePackageOperation(op) => {
                lemma_json_string_len(op);
            },
            ReasonView::PreServiceOperation(op) => {
                lemma_json_string_len(op);
            },
            _ => {},
        }
    }
}

/// UTF-8 uses at most four bytes per character.
pub proof fn lemma_encode_utf8_len(cs: Seq<char>)
    ensures
        vstd::utf8::encode_utf8(cs).len() <= 4 * cs.len(),
    decreases cs.len(),
{
    if cs.len() > 0 {
        assert(vstd::utf8::encode_scalar(cs[0] as u32).len() <= 4);
        lemma_encode_utf8_len(cs.drop_first());
    }
}

} // verus!
