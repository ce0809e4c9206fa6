//! Canonical snapshot file names: `{log_id}-{start_frame_no}-{end_frame_no}.snap`.

use vstd::prelude::*;
use vstd::arithmetic::div_mod::lemma_mod_breakdown;
use vstd::string::*;

verus! {

pub open spec fn is_dec_digit(c: char) -> bool {
    '0' <= c && c <= '9'
}

/// A lower-case hexadecimal digit: ids in snapshot names are written in lower case.
pub open spec fn is_hex_digit(c: char) -> bool {
    ('0' <= c && c <= '9') || ('a' <= c && c <= 'f')
}

pub open spec fn dec_digit_value(c: char) -> nat {
    (c as u32 - '0' as u32) as nat
}

pub open spec fn hex_digit_value(c: char) -> nat {
    if '0' <= c && c <= '9' {
        (c as u32 - '0' as u32) as nat
    } else {
        (c as u32 - 'a' as u32 + 10) as nat
    }
}

/// Value of a string of decimal digits, most significant first.
pub open spec fn dec_value(s: Seq<char>) -> nat
    decreases s.len(),
{
    if s.len() == 0 {
        0
    } else {
        dec_value(s.drop_last()) * 10 + dec_digit_value(s.last())
    }
}

/// Value of a string of hexadecimal digits, most significant first.
pub open spec fn hex_value(s: Seq<char>) -> nat
    decreases s.len(),
{
    if s.len() == 0 {
        0
    } else {
        hex_value(s.drop_last()) * 16 + hex_digit_value(s.last())
    }
}

pub open spec fn dec_char(d: nat) -> char {
    if d == 0 { '0' }
    else if d == 1 { '1' }
    else if d == 2 { '2' }
    else if d == 3 { '3' }
    else if d == 4 { '4' }
    else if d == 5 { '5' }
    else if d == 6 { '6' }
    else if d == 7 { '7' }
    else if d == 8 { '8' }
    else { '9' }
}

pub open spec fn lower_hex_char(d: nat) -> char {
    if d < 10 { dec_char(d) }
    else if d == 10 { 'a' }
    else if d == 11 { 'b' }
    else if d == 12 { 'c' }
    else if d == 13 { 'd' }
    else if d == 14 { 'e' }
    else { 'f' }
}

/// Shortest decimal text of `v`.
pub open spec fn dec_text(v: nat) -> Seq<char>
    decreases v,
{
    if v < 10 {
        seq![dec_char(v)]
    } else {
        dec_text(v / 10).push(dec_char(v % 10))
    }
}

/// The `n` lowest hexadecimal digits of `v`, lower case, most significant first.
pub open spec fn hex_text(v: nat, n: nat) -> Seq<char>
    decreases n,
{
    if n == 0 {
        Seq::empty()
    } else {
        hex_text(v / 16, (n - 1) as nat).push(lower_hex_char(v % 16))
    }
}

pub open spec fn hyphenate(d: Seq<char>) -> Seq<char> {
    d.subrange(0, 8) + seq!['-'] + d.subrange(8, 12) + seq!['-'] + d.subrange(12, 16)
        + seq!['-'] + d.subrange(16, 20) + seq!['-'] + d.subrange(20, 32)
}

/// Hyphenated lower-case text of a 128-bit identifier (8-4-4-4-12 digits).
pub open spec fn uuid_text_of(id: u128) -> Seq<char> {
    hyphenate(hex_text(id as nat, 32))
}

pub open spec fn is_hyphen_pos(i: int) -> bool {
    i == 8 || i == 13 || i == 18 || i == 23
}

/// `s` is 36 characters: lower-case hexadecimal digits in groups of 8-4-4-4-12 parted by hyphens.
pub open spec fn uuid_shaped(s: Seq<char>) -> bool {
    &&& s.len() == 36
    &&& forall|i: int|
        0 <= i < 36 ==> if is_hyphen_pos(i) {
            s[i] == '-'
        } else {
            is_hex_digit(#[trigger] s[i])
        }
}

/// The 32 digits of a hyphenated identifier, hyphens left out.
pub open spec fn uuid_digits(s: Seq<char>) -> Seq<char> {
    s.subrange(0, 8) + s.subrange(9, 13) + s.subrange(14, 18) + s.subrange(19, 23)
        + s.subrange(24, 36)
}

pub open spec fn uuid_value(s: Seq<char>) -> nat {
    hex_value(uuid_digits(s))
}

pub open spec fn snap_suffix() -> Seq<char> {
    seq!['.', 's', 'n', 'a', 'p']
}

/// The canonical name of the snapshot of `log_id` spanning frames `start..=end`.
pub open spec fn snapshot_name_of(log_id: u128, start: u64, end: u64) -> Seq<char> {
    uuid_text_of(log_id) + seq!['-'] + dec_text(start as nat) + seq!['-'] + dec_text(end as nat)
        + snap_suffix()
}

/// Number of decimal digits in `s` from position `i` on, up to the first other character.
pub open spec fn digit_run(s: Seq<char>, i: int) -> nat
    decreases s.len() - i,
{
    if i < 0 || i >= s.len() || !is_dec_digit(s[i]) {
        0
    } else {
        1 + digit_run(s, i + 1)
    }
}

pub open spec fn run_end(s: Seq<char>, i: int) -> int {
    i + digit_run(s, i)
}

/// What a snapshot name says: its log id, first frame and last frame. `None` for a name
/// that is not `uuid-digits-digits.snap`, or whose numbers do not fit in 64 bits.
pub open spec fn parse_name(s: Seq<char>) -> Option<(u128, u64, u64)> {
    let n = s.len() as int;
    let j1 = run_end(s, 37);
    let j2 = run_end(s, j1 + 1);
    if n >= 37 && uuid_shaped(s.subrange(0, 36)) && s[36] == '-' && j1 > 37 && j1 < n
        && s[j1] == '-' && j2 > j1 + 1 && s.subrange(j2, n) == snap_suffix()
        && dec_value(s.subrange(37, j1)) <= u64::MAX
        && dec_value(s.subrange(j1 + 1, j2)) <= u64::MAX {
        Some(
            (
                uuid_value(s.subrange(0, 36)) as u128,
                dec_value(s.subrange(37, j1)) as u64,
                dec_value(s.subrange(j1 + 1, j2)) as u64,
            ),
        )
    } else {
        None
    }
}

/// `base` joined with the relative component `name`, with one separator
/// between them.
pub open spec fn path_join(base: Seq<char>, name: Seq<char>) -> Seq<char> {
    if base.len() == 0 {
        name
    } else if base.last() == '/' {
        base + name
    } else {
        base + seq!['/'] + name
    }
}

pub open spec fn snapshots_component() -> Seq<char> {
    seq!['s', 'n', 'a', 'p', 's', 'h', 'o', 't', 's']
}

/// The directory that holds the snapshots of the database at `db_path`.
pub fn snapshot_dir_path(db_path: &str) -> (r: String)
    ensures
        r@ == path_join(db_path@, snapshots_component()),
{
    proof {
        reveal_strlit("snapshots");
        reveal_strlit("/snapshots");
    }
    let n = db_path.unicode_len();
    let mut r = String::from_str(db_path);
    if n == 0 || db_path.get_char(n - 1) == '/' {
        r.append("snapshots");
    } else {
        r.append("/snapshots");
    }
    assert(r@ =~= path_join(db_path@, snapshots_component()));
    r
}

/// Relies on `uuid::Uuid::from_u128` and its `Display`: the hyphenated
/// lower-case form of the big-endian value.
#[verifier::external_body]
fn uuid_text(id: u128) -> (r: String)
    ensures
        r@ == uuid_text_of(id),
{
    uuid::Uuid::from_u128(id).to_string()
}

/// Relies on `uuid::Uuid::try_parse` and `Uuid::as_u128`: a 36-character
/// 8-4-4-4-12 hyphenated string of hexadecimal digits parses to the
/// big-endian value of its digits. (The crate also takes upper-case digits;
/// the contract speaks only of the lower-case ones that names hold.)
#[verifier::external_body]
fn parse_uuid(s: &str) -> (r: Option<u128>)
    ensures
        uuid_shaped(s@) ==> r == Some(uuid_value(s@) as u128),
{
    uuid::Uuid::try_parse(s).ok().map(|u| u.as_u128())
}

fn digit_str(d: u64) -> (r: &'static str)
    requires
        d < 10,
    ensures
        r@ == seq![dec_char(d as nat)],
{
    if d == 0 { proof { reveal_strlit("0"); } "0" }
    else if d == 1 { proof { reveal_strlit("1"); } "1" }
    else if d == 2 { proof { reveal_strlit("2"); } "2" }
    else if d == 3 { proof { reveal_strlit("3"); } "3" }
    else if d == 4 { proof { reveal_strlit("4"); } "4" }
    else if d == 5 { proof { reveal_strlit("5"); } "5" }
    else if d == 6 { proof { reveal_strlit("6"); } "6" }
    else if d == 7 { proof { reveal_strlit("7"); } "7" }
    else if d == 8 { proof { reveal_strlit("8"); } "8" }
    else { proof { reveal_strlit("9"); } "9" }
}

/// Appends the decimal text of `v` to `s`.
pub fn push_decimal(s: &mut String, v: u64)
    ensures
        final(s)@ == old(s)@ + dec_text(v as nat),
    decreases v,
{
    if v >= 10 {
        push_decimal(s, v / 10);
    }
    s.append(digit_str(v % 10));
    assert(s@ =~= old(s)@ + dec_text(v as nat));
}

/// Formats the canonical name of the snapshot of `log_id` spanning frames `start..=end`.
pub fn format_snapshot_name(log_id: u128, start: u64, end: u64) -> (r: String)
    ensures
        r@ == snapshot_name_of(log_id, start, end),
{
    let mut s = uuid_text(log_id);
    proof { reveal_strlit("-"); reveal_strlit(".snap"); }
    s.append("-");
    push_decimal(&mut s, start);
    s.append("-");
    push_decimal(&mut s, end);
    s.append(".snap");
    assert(s@ =~= snapshot_name_of(log_id, start, end));
    s
}


proof fn lemma_run_end_bound(s: Seq<char>, i: int)
    requires
        0 <= i <= s.len(),
    ensures
        i <= run_end(s, i) <= s.len(),
    decreases s.len() - i,
{
    if i < s.len() && is_dec_digit(s[i]) {
        lemma_run_end_bound(s, i + 1);
    }
}

proof fn lemma_dec_value_grows(s: Seq<char>, i: int, j: int, k: int)
    requires
        0 <= i <= j <= k <= s.len(),
    ensures
        dec_value(s.subrange(i, j)) <= dec_value(s.subrange(i, k)),
    decreases k - j,
{
    if j < k {
        lemma_dec_value_grows(s, i, j, k - 1);
        assert(s.subrange(i, k).drop_last() =~= s.subrange(i, k - 1));
    }
}

fn is_digit_char(c: char) -> (r: bool)
    ensures
        r == is_dec_digit(c),
{
    '0' <= c && c <= '9'
}

fn is_hex_char(c: char) -> (r: bool)
    ensures
        r == is_hex_digit(c),
{
    ('0' <= c && c <= '9') || ('a' <= c && c <= 'f')
}

/// Reads the run of decimal digits of `s` that starts at `i`: its value and where it ends,
/// or `None` where the value does not fit in 64 bits.
fn scan_decimal(s: &str, n: usize, i: usize) -> (r: Option<(u64, usize)>)
    requires
        n == s@.len(),
        i <= n,
    ensures
        match r {
            Some((v, j)) => j <= n && j == run_end(s@, i as int) && v as nat == dec_value(
                s@.subrange(i as int, j as int),
            ),
            None => dec_value(s@.subrange(i as int, run_end(s@, i as int))) > u64::MAX,
        },
{
    let mut j: usize = i;
    let mut v: u64 = 0;
    while j < n && is_digit_char(s.get_char(j))
        invariant
            i <= j <= n,
            n == s@.len(),
            digit_run(s@, i as int) == (j - i) + digit_run(s@, j as int),
            v as nat == dec_value(s@.subrange(i as int, j as int)),
        decreases n - j,
    {
        let c = s.get_char(j);
        let d: u64 = (c as u32 - '0' as u32) as u64;
        let w: u128 = v as u128 * 10 + d as u128;
        assert(s@.subrange(i as int, j + 1).drop_last() =~= s@.subrange(i as int, j as int));
        if w > u64::MAX as u128 {
            proof {
                lemma_run_end_bound(s@, i as int);
                lemma_dec_value_grows(s@, i as int, j + 1, run_end(s@, i as int));
            }
            return None;
        }
        v = w as u64;
        j = j + 1;
    }
    Some((v, j))
}

fn uuid_shaped_exec(s: &str) -> (r: bool)
    requires
        s@.len() == 36,
    ensures
        r == uuid_shaped(s@),
{
    let mut i: usize = 0;
    while i < 36
        invariant
            0 <= i <= 36,
            s@.len() == 36,
            forall|k: int|
                0 <= k < i ==> if is_hyphen_pos(k) {
                    s@[k] == '-'
                } else {
                    is_hex_digit(#[trigger] s@[k])
                },
        decreases 36 - i,
    {
        let c = s.get_char(i);
        if i == 8 || i == 13 || i == 18 || i == 23 {
            if c != '-' {
                return false;
            }
        } else if !is_hex_char(c) {
            return false;
        }
        i = i + 1;
    }
    true
}

/// Reads a snapshot name: its log id, first frame and last frame. Names of
/// another shape give `None`.
pub fn parse_snapshot_name(name: &str) -> (r: Option<(u128, u64, u64)>)
    ensures
        r == parse_name(name@),
{
    let n = name.unicode_len();
    if n < 37 {
        return None;
    }
    let id_part = name.substring_char(0, 36);
    if !uuid_shaped_exec(id_part) || name.get_char(36) != '-' {
        return None;
    }
    let (start, j1) = match scan_decimal(name, n, 37) {
        Some(p) => p,
        None => return None,
    };
    if j1 == 37 || j1 >= n || name.get_char(j1) != '-' {
        return None;
    }
    let (end, j2) = match scan_decimal(name, n, j1 + 1) {
        Some(p) => p,
        None => return None,
    };
    proof {
        lemma_run_end_bound(name@, j1 + 1);
    }
    if j2 == j1 + 1 || n - j2 != 5 {
        assert(snap_suffix().len() == 5);
        assert(name@.subrange(j2 as int, n as int).len() == n - j2);
        return None;
    }
    let ghost t = name@.subrange(j2 as int, n as int);
    assert(t[0] == name@[j2 as int] && t[1] == name@[j2 + 1] && t[2] == name@[j2 + 2]
        && t[3] == name@[j2 + 3] && t[4] == name@[j2 + 4]);
    assert(snap_suffix()[0] == '.' && snap_suffix()[1] == 's' && snap_suffix()[2] == 'n'
        && snap_suffix()[3] == 'a' && snap_suffix()[4] == 'p');
    if name.get_char(j2) != '.' || name.get_char(j2 + 1) != 's' || name.get_char(j2 + 2) != 'n'
        || name.get_char(j2 + 3) != 'a' || name.get_char(j2 + 4) != 'p' {
        return None;
    }
    assert(name@.subrange(j2 as int, n as int) =~= snap_suffix());
    match parse_uuid(id_part) {
        Some(id) => Some((id, start, end)),
        None => None,
    }
}


pub open spec fn pow16(n: nat) -> nat
    decreases n,
{
    if n == 0 {
        1
    } else {
        16 * pow16((n - 1) as nat)
    }
}

proof fn lemma_dec_text(v: nat)
    ensures
        dec_text(v).len() >= 1,
        forall|i: int| 0 <= i < dec_text(v).len() ==> is_dec_digit(#[trigger] dec_text(v)[i]),
        dec_value(dec_text(v)) == v,
    decreases v,
{
    lemma_dec_char(v % 10);
    if v >= 10 {
        lemma_dec_text(v / 10);
        assert(v == (v / 10) * 10 + v % 10);
        let t = dec_text(v);
        assert(t.drop_last() =~= dec_text(v / 10));
        assert(t.last() == dec_char(v % 10));
        assert(dec_value(t) == dec_value(t.drop_last()) * 10 + dec_digit_value(t.last()));
        assert(dec_value(t) == (v / 10) * 10 + v % 10);
        assert forall|i: int| 0 <= i < t.len() implies is_dec_digit(#[trigger] t[i]) by {
            if i < t.len() - 1 {
                assert(t[i] == dec_text(v / 10)[i]);
            }
        }
    } else {
        assert(dec_text(v).drop_last() =~= Seq::<char>::empty());
        assert(dec_value(Seq::<char>::empty()) == 0);
        assert(dec_text(v).last() == dec_char(v));
    }
}

proof fn lemma_dec_char(d: nat)
    requires
        d < 10,
    ensures
        is_dec_digit(dec_char(d)),
        dec_digit_value(dec_char(d)) == d,
{
}

proof fn lemma_hex_text(v: nat, n: nat)
    ensures
        hex_text(v, n).len() == n,
        forall|i: int| 0 <= i < n ==> is_hex_digit(#[trigger] hex_text(v, n)[i]),
        hex_value(hex_text(v, n)) == v % pow16(n),
    decreases n,
{
    if n > 0 {
        let m = (n - 1) as nat;
        lemma_hex_text(v / 16, m);
        let t = hex_text(v, n);
        assert(t.drop_last() =~= hex_text(v / 16, m));
        assert forall|i: int| 0 <= i < n implies is_hex_digit(#[trigger] t[i]) by {
            if i < n - 1 {
                assert(t[i] == hex_text(v / 16, m)[i]);
            }
        }
        assert(pow16(m) > 0) by {
            lemma_pow16_positive(m);
        }
        lemma_mod_breakdown(v as int, 16, pow16(m) as int);
    }
}

proof fn lemma_pow16_positive(n: nat)
    ensures
        pow16(n) > 0,
    decreases n,
{
    if n > 0 {
        lemma_pow16_positive((n - 1) as nat);
    }
}

proof fn lemma_uuid_text(id: u128)
    ensures
        uuid_shaped(uuid_text_of(id)),
        uuid_value(uuid_text_of(id)) == id,
{
    let d = hex_text(id as nat, 32);
    lemma_hex_text(id as nat, 32);
    let t = uuid_text_of(id);
    assert(t.len() == 36);
    assert forall|i: int| 0 <= i < 36 implies (if is_hyphen_pos(i) {
        t[i] == '-'
    } else {
        is_hex_digit(#[trigger] t[i])
    }) by {
        if i < 8 {
            assert(t[i] == d[i]);
        } else if 8 < i < 13 {
            assert(t[i] == d[i - 1]);
        } else if 13 < i < 18 {
            assert(t[i] == d[i - 2]);
        } else if 18 < i < 23 {
            assert(t[i] == d[i - 3]);
        } else if 23 < i {
            assert(t[i] == d[i - 4]);
        }
    }
    assert(uuid_digits(t) =~= d);
    reveal_with_fuel(pow16, 33);
    assert(pow16(32) == 0x1_0000_0000_0000_0000_0000_0000_0000_0000);
}

proof fn lemma_run_exact(s: Seq<char>, i: int, k: int)
    requires
        0 <= i,
        0 <= k,
        i + k <= s.len(),
        forall|m: int| i <= m < i + k ==> is_dec_digit(#[trigger] s[m]),
        i + k == s.len() || !is_dec_digit(s[i + k]),
    ensures
        digit_run(s, i) == k,
    decreases k,
{
    if k > 0 {
        lemma_run_exact(s, i + 1, k - 1);
    }
}

/// A canonical snapshot name reads back as the log id and the range it was
/// formatted from.
pub proof fn lemma_name_round_trip(log_id: u128, start: u64, end: u64)
    ensures
        parse_name(snapshot_name_of(log_id, start, end)) == Some((log_id, start, end)),
{
    let u = uuid_text_of(log_id);
    let a = dec_text(start as nat);
    let b = dec_text(end as nat);
    let s = snapshot_name_of(log_id, start, end);
    lemma_uuid_text(log_id);
    lemma_dec_text(start as nat);
    lemma_dec_text(end as nat);
    let la = a.len() as int;
    let lb = b.len() as int;
    let n = s.len() as int;
    assert(n == 36 + 1 + la + 1 + lb + 5);
    assert(s.subrange(0, 36) =~= u);
    assert(s[36] == '-');
    assert(s.subrange(37, 37 + la) =~= a);
    assert(s[37 + la] == '-');
    assert(s.subrange(38 + la, 38 + la + lb) =~= b);
    assert(s.subrange(38 + la + lb, n) =~= snap_suffix());
    assert(s[38 + la + lb] == '.');
    assert forall|m: int| 37 <= m < 37 + la implies is_dec_digit(#[trigger] s[m]) by {
        assert(s[m] == a[m - 37]);
    }
    assert forall|m: int| 38 + la <= m < 38 + la + lb implies is_dec_digit(#[trigger] s[m]) by {
        assert(s[m] == b[m - 38 - la]);
    }
    lemma_run_exact(s, 37, la);
    lemma_run_exact(s, 38 + la, lb);
}

} // verus!
