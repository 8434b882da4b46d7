//! The snapshot text format the store persists itself in, with its exact
//! specification: an encoder, a decoder that accepts precisely the canonical
//! texts, and the proof that decoding inverts encoding.
//!
//! A snapshot is a character text: the tag `skvs;`, then `last_update`,
//! `last_write` and `size` as decimal numbers each closed by `;`, the path
//! as a length-prefixed string, the entry count, and one `key time version
//! value` group per entry. Numbers are canonical decimals (no leading
//! zeros); a string token is its character length followed by `;` and
//! exactly that many characters.

use vstd::prelude::*;

use crate::entry::EntryV;
use crate::kvmap::{has_key, unique_keys};

verus! {

/// The mathematical value of a snapshot: the store scalars and the ordered
/// key-entry pair sequence.
pub ghost struct SnapV {
    pub path: Seq<char>,
    pub last_update: int,
    pub last_write: int,
    pub size: int,
    pub pairs: Seq<(Seq<char>, EntryV)>,
}

/// What the store guarantees of each held pair: key and value non-empty,
/// the version a positive machine integer, and the entry's timestamp
/// between 1 and the store's `last_update`.
pub open spec fn entry_wf(p: (Seq<char>, EntryV), last_update: int) -> bool {
    &&& p.0.len() > 0
    &&& p.1.value.len() > 0
    &&& 1 <= p.1.version <= i64::MAX
    &&& 1 <= p.1.time <= last_update
}

/// Well-formedness of a snapshot value: machine-bounded metrics, the size
/// equal to the number of pairs, pairwise-distinct keys, and every pair
/// well-formed.
pub open spec fn snap_wf(s: SnapV) -> bool {
    &&& 0 <= s.last_update <= i64::MAX
    &&& 0 <= s.last_write <= i64::MAX
    &&& s.size == s.pairs.len()
    &&& unique_keys(s.pairs)
    &&& forall|i: int| 0 <= i < s.pairs.len() ==> entry_wf(#[trigger] s.pairs[i], s.last_update)
}

/// The lengths a snapshot's strings must keep under for its text to parse
/// back; every snapshot held in memory satisfies them.
pub open spec fn snap_bounded(s: SnapV) -> bool {
    &&& s.path.len() <= u64::MAX
    &&& s.pairs.len() <= u64::MAX
    &&& forall|i: int|
        0 <= i < s.pairs.len() ==> (#[trigger] s.pairs[i]).0.len() <= u64::MAX
            && s.pairs[i].1.value.len() <= u64::MAX
}

// ---------------------------------------------------------------------
// Characters and decimal digits
// ---------------------------------------------------------------------
pub open spec fn is_digit_char(c: char) -> bool {
    '0' <= c && c <= '9'
}

pub open spec fn digit_val(c: char) -> int {
    c as int - 48
}

pub open spec fn digit_char(d: int) -> char {
    ((48 + d) as u8) as char
}

/// The decimal digits of `n`, most significant first.
pub open spec fn dec_digits(n: nat) -> Seq<char>
    decreases n,
{
    if n < 10 {
        seq![digit_char(n as int)]
    } else {
        dec_digits(n / 10).push(digit_char((n % 10) as int))
    }
}

/// The number a digit sequence denotes.
pub open spec fn digits_val(ds: Seq<char>) -> int
    decreases ds.len(),
{
    if ds.len() == 0 {
        0
    } else {
        digits_val(ds.drop_last()) * 10 + digit_val(ds.last())
    }
}

pub open spec fn all_digits(ds: Seq<char>) -> bool {
    forall|i: int| 0 <= i < ds.len() ==> is_digit_char(#[trigger] ds[i])
}

// ---------------------------------------------------------------------
// Token encoders
// ---------------------------------------------------------------------
/// A number token: canonical decimal digits closed by `;`.
pub open spec fn enc_num(n: nat) -> Seq<char> {
    dec_digits(n) + seq![';']
}

/// A string token: the character length as a number token, then the
/// characters themselves.
pub open spec fn enc_str(s: Seq<char>) -> Seq<char> {
    enc_num(s.len()) + s
}

/// One key-entry group.
pub open spec fn enc_entry(p: (Seq<char>, EntryV)) -> Seq<char> {
    enc_str(p.0) + enc_num(p.1.time as nat) + enc_num(p.1.version as nat) + enc_str(p.1.value)
}

/// All groups, in pair order.
pub open spec fn enc_entries(ps: Seq<(Seq<char>, EntryV)>) -> Seq<char>
    decreases ps.len(),
{
    if ps.len() == 0 {
        Seq::empty()
    } else {
        enc_entries(ps.drop_last()) + enc_entry(ps.last())
    }
}

/// The opening tag of every snapshot text.
pub open spec fn magic() -> Seq<char> {
    seq!['s', 'k', 'v', 's', ';']
}

/// The full snapshot text of a well-formed snapshot value.
pub open spec fn spec_encode(s: SnapV) -> Seq<char> {
    magic() + enc_num(s.last_update as nat) + enc_num(s.last_write as nat) + enc_num(
        s.size as nat,
    ) + enc_str(s.path) + enc_num(s.pairs.len()) + enc_entries(s.pairs)
}

// ---------------------------------------------------------------------
// Token parsers
// ---------------------------------------------------------------------
/// The digit-accumulating reading of a number token body: digits until the
/// closing `;`, rejecting anything that would not fit a `u64`.
pub open spec fn sp_num_loop(s: Seq<char>, acc: u64) -> Option<(u64, Seq<char>)>
    decreases s.len(),
{
    if s.len() == 0 {
        None
    } else if s[0] == ';' {
        Some((acc, s.drop_first()))
    } else if is_digit_char(s[0]) {
        if acc * 10 + digit_val(s[0]) > u64::MAX {
            None
        } else {
            sp_num_loop(s.drop_first(), (acc * 10 + digit_val(s[0])) as u64)
        }
    } else {
        None
    }
}

/// A number token: at least one digit, no leading zero, closed by `;`.
pub open spec fn sp_parse_num(s: Seq<char>) -> Option<(u64, Seq<char>)> {
    if s.len() == 0 {
        None
    } else if !is_digit_char(s[0]) {
        None
    } else if s[0] == '0' && s.len() >= 2 && is_digit_char(s[1]) {
        None
    } else {
        sp_num_loop(s, 0)
    }
}

/// A string token: a length then exactly that many characters.
pub open spec fn sp_parse_str(s: Seq<char>) -> Option<(Seq<char>, Seq<char>)> {
    match sp_parse_num(s) {
        None => None,
        Some((n, r)) => if r.len() < n {
            None
        } else {
            Some((r.take(n as int), r.skip(n as int)))
        },
    }
}

/// `n` key-entry groups, checked as they come: keys non-empty and fresh,
/// timestamps between 1 and `lu`, versions positive machine integers,
/// values non-empty.
pub open spec fn sp_parse_entries(
    s: Seq<char>,
    n: nat,
    lu: int,
    acc: Seq<(Seq<char>, EntryV)>,
) -> Option<(Seq<(Seq<char>, EntryV)>, Seq<char>)>
    decreases n,
{
    if n == 0 {
        Some((acc, s))
    } else {
        match sp_parse_str(s) {
            None => None,
            Some((k, s1)) => if k.len() == 0 || has_key(acc, k) {
                None
            } else {
                match sp_parse_num(s1) {
                    None => None,
                    Some((t, s2)) => if t < 1 || t > lu {
                        None
                    } else {
                        match sp_parse_num(s2) {
                            None => None,
                            Some((ver, s3)) => if ver < 1 || ver > i64::MAX {
                                None
                            } else {
                                match sp_parse_str(s3) {
                                    None => None,
                                    Some((val, s4)) => if val.len() == 0 {
                                        None
                                    } else {
                                        sp_parse_entries(
                                            s4,
                                            (n - 1) as nat,
                                            lu,
                                            acc.push(
                                                (k, EntryV {
                                                    time: t as int,
                                                    version: ver as int,
                                                    value: val,
                                                }),
                                            ),
                                        )
                                    },
                                }
                            },
                        }
                    },
                }
            },
        }
    }
}

/// The reading of a whole snapshot text; `None` on anything but the
/// canonical text of a well-formed snapshot value.
pub open spec fn spec_decode(t: Seq<char>) -> Option<SnapV> {
    if t.len() < 5 || t.take(5) != magic() {
        None
    } else {
        match sp_parse_num(t.skip(5)) {
            None => None,
            Some((lu, s1)) => if lu > i64::MAX {
                None
            } else {
                match sp_parse_num(s1) {
                    None => None,
                    Some((lw, s2)) => if lw > i64::MAX {
                        None
                    } else {
                        match sp_parse_num(s2) {
                            None => None,
                            Some((size, s3)) => match sp_parse_str(s3) {
                                None => None,
                                Some((path, s4)) => match sp_parse_num(s4) {
                                    None => None,
                                    Some((count, s5)) => if count != size {
                                        None
                                    } else {
                                        match sp_parse_entries(
                                            s5,
                                            count as nat,
                                            lu as int,
                                            Seq::empty(),
                                        ) {
                                            None => None,
                                            Some((pairs, rest)) => if rest.len() != 0 {
                                                None
                                            } else {
                                                Some(
                                                    SnapV {
                                                        path,
                                                        last_update: lu as int,
                                                        last_write: lw as int,
                                                        size: size as int,
                                                        pairs,
                                                    },
                                                )
                                            },
                                        }
                                    },
                                },
                            },
                        }
                    },
                }
            },
        }
    }
}

// ---------------------------------------------------------------------
// The decoder accepts only well-formed snapshots
// ---------------------------------------------------------------------
pub open spec fn pow10(k: nat) -> nat
    decreases k,
{
    if k == 0 {
        1
    } else {
        10 * pow10((k - 1) as nat)
    }
}

proof fn lemma_entries_parse_wf(s: Seq<char>, n: nat, lu: int, acc: Seq<(Seq<char>, EntryV)>)
    requires
        unique_keys(acc),
        forall|i: int| 0 <= i < acc.len() ==> entry_wf(#[trigger] acc[i], lu),
        sp_parse_entries(s, n, lu, acc) is Some,
    ensures
        ({
            let (ps, r) = sp_parse_entries(s, n, lu, acc)->Some_0;
            &&& unique_keys(ps)
            &&& forall|i: int| 0 <= i < ps.len() ==> entry_wf(#[trigger] ps[i], lu)
            &&& ps.len() == acc.len() + n
        }),
    decreases n,
{
    if n == 0 {
    } else {
        let (k, s1) = sp_parse_str(s)->Some_0;
        let (t, s2) = sp_parse_num(s1)->Some_0;
        let (ver, s3) = sp_parse_num(s2)->Some_0;
        let (val, s4) = sp_parse_str(s3)->Some_0;
        let e = EntryV { time: t as int, version: ver as int, value: val };
        let acc2 = acc.push((k, e));
        assert(unique_keys(acc2)) by {
            assert(forall|i: int| 0 <= i < acc.len() ==> acc2[i] == acc[i]);
            assert(!has_key(acc, k));
            assert forall|i: int, j: int| 0 <= i < j < acc2.len() implies acc2[i].0 != acc2[j].0 by {
                if j == acc2.len() - 1 {
                    if acc2[i].0 == k {
                        assert(acc[i].0 == k);
                        assert(has_key(acc, k));
                    }
                }
            }
        }
        lemma_entries_parse_wf(s4, (n - 1) as nat, lu, acc2);
    }
}

/// Whatever text the decoder accepts denotes a well-formed snapshot.
pub proof fn lemma_decode_wf(t: Seq<char>)
    requires
        spec_decode(t) is Some,
    ensures
        snap_wf(spec_decode(t)->Some_0),
{
    let s5 = spec_entries_start(t);
    let lu = spec_lu(t);
    let count = spec_count(t);
    lemma_entries_parse_wf(s5, count as nat, lu as int, Seq::empty());
}

// Helper readings of the token chain, so the proof above can name the
// intermediate positions the decoder reaches.
spec fn spec_lu(t: Seq<char>) -> u64 {
    sp_parse_num(t.skip(5))->Some_0.0
}

spec fn spec_count(t: Seq<char>) -> u64 {
    let (_lu, s1) = sp_parse_num(t.skip(5))->Some_0;
    let (_lw, s2) = sp_parse_num(s1)->Some_0;
    let (_size, s3) = sp_parse_num(s2)->Some_0;
    let (_path, s4) = sp_parse_str(s3)->Some_0;
    sp_parse_num(s4)->Some_0.0
}

spec fn spec_entries_start(t: Seq<char>) -> Seq<char> {
    let (_lu, s1) = sp_parse_num(t.skip(5))->Some_0;
    let (_lw, s2) = sp_parse_num(s1)->Some_0;
    let (_size, s3) = sp_parse_num(s2)->Some_0;
    let (_path, s4) = sp_parse_str(s3)->Some_0;
    sp_parse_num(s4)->Some_0.1
}

// ---------------------------------------------------------------------
// Decoding inverts encoding
// ---------------------------------------------------------------------
proof fn lemma_dec_digits_props(n: nat)
    ensures
        all_digits(dec_digits(n)),
        dec_digits(n).len() >= 1,
        digits_val(dec_digits(n)) == n,
        n > 0 ==> dec_digits(n)[0] != '0',
        n < pow10(dec_digits(n).len()),
    decreases n,
{
    if n < 10 {
        let ds = dec_digits(n);
        assert(ds == seq![digit_char(n as int)]);
        assert(digit_val(digit_char(n as int)) == n);
        assert(is_digit_char(digit_char(n as int)));
        assert(ds.drop_last() =~= Seq::<char>::empty());
        assert(digits_val(Seq::<char>::empty()) == 0);
        assert(ds.last() == digit_char(n as int));
        assert(digits_val(ds) == n);
        assert(pow10(0) == 1);
        assert(pow10(1) == 10);
    } else {
        lemma_dec_digits_props(n / 10);
        let ds = dec_digits(n);
        let hd = dec_digits(n / 10);
        assert(ds == hd.push(digit_char((n % 10) as int)));
        assert(ds.drop_last() =~= hd);
        assert(ds.last() == digit_char((n % 10) as int));
        assert(digit_val(ds.last()) == n % 10);
        assert(is_digit_char(ds.last()));
        assert(all_digits(ds)) by {
            assert(forall|i: int| 0 <= i < hd.len() ==> ds[i] == hd[i]);
        }
        assert(digits_val(ds) == digits_val(hd) * 10 + n % 10);
        assert(digits_val(hd) == n / 10);
        assert((n / 10) * 10 + n % 10 == n);
        assert(ds[0] == hd[0]);
        assert(n / 10 > 0);
        assert(n < pow10(ds.len())) by {
            assert(n / 10 < pow10(hd.len()));
            assert(n / 10 + 1 <= pow10(hd.len()));
            assert((n / 10 + 1) * 10 <= pow10(hd.len()) * 10) by (nonlinear_arith)
                requires
                    n / 10 + 1 <= pow10(hd.len()),
            ;
            assert((n / 10 + 1) * 10 == (n / 10) * 10 + 10);
            assert(pow10(ds.len()) == 10 * pow10(hd.len()));
            assert(n <= (n / 10) * 10 + 9);
        }
    }
}

proof fn lemma_digits_val_nonneg(ds: Seq<char>)
    requires
        all_digits(ds),
    ensures
        digits_val(ds) >= 0,
    decreases ds.len(),
{
    if ds.len() > 0 {
        assert(all_digits(ds.drop_last())) by {
            assert(forall|i: int| 0 <= i < ds.len() - 1 ==> ds.drop_last()[i] == ds[i]);
        }
        lemma_digits_val_nonneg(ds.drop_last());
        assert(is_digit_char(ds.last()));
        assert(digit_val(ds.last()) >= 0);
    }
}

proof fn lemma_digits_val_front(ds: Seq<char>)
    requires
        ds.len() > 0,
    ensures
        digits_val(ds) == digit_val(ds[0]) * pow10((ds.len() - 1) as nat) + digits_val(
            ds.drop_first(),
        ),
    decreases ds.len(),
{
    if ds.len() == 1 {
        assert(ds.drop_last() =~= Seq::<char>::empty());
        assert(ds.drop_first() =~= Seq::<char>::empty());
        assert(digits_val(Seq::<char>::empty()) == 0);
        assert(ds.last() == ds[0]);
        assert(digits_val(ds) == digit_val(ds[0]));
        assert(pow10(0) == 1);
        assert((ds.len() - 1) as nat == 0);
        assert(digit_val(ds[0]) * pow10((ds.len() - 1) as nat) + digits_val(ds.drop_first())
            == digit_val(ds[0])) by (nonlinear_arith)
            requires
                pow10((ds.len() - 1) as nat) == 1,
                digits_val(ds.drop_first()) == 0,
        ;
    } else {
        let hd = ds.drop_last();
        lemma_digits_val_front(hd);
        assert(hd[0] == ds[0]);
        assert(hd.drop_first() =~= ds.drop_first().drop_last());
        let p = pow10((hd.len() - 1) as nat);
        let d0 = digit_val(ds[0]);
        let x = digits_val(ds.drop_first().drop_last());
        let dl = digit_val(ds.last());
        assert(digits_val(ds) == digits_val(hd) * 10 + dl);
        assert(digits_val(hd) == d0 * p + x);
        assert(ds.drop_first().last() == ds.last());
        assert(ds.drop_first().len() > 0);
        assert(digits_val(ds.drop_first()) == x * 10 + dl);
        assert((d0 * p + x) * 10 + dl == d0 * (10 * p) + (x * 10 + dl)) by (nonlinear_arith);
        assert(pow10((ds.len() - 1) as nat) == 10 * pow10((ds.len() - 2) as nat));
        assert((hd.len() - 1) as nat == (ds.len() - 2) as nat);
        assert(pow10((ds.len() - 1) as nat) == 10 * p);
        assert(d0 * pow10((ds.len() - 1) as nat) == d0 * (10 * p));
        assert(digits_val(ds) == d0 * pow10((ds.len() - 1) as nat) + digits_val(
            ds.drop_first(),
        ));
    }
}

proof fn lemma_num_loop_digits(ds: Seq<char>, tail: Seq<char>, acc: u64)
    requires
        all_digits(ds),
        acc * pow10(ds.len()) + digits_val(ds) <= u64::MAX,
    ensures
        sp_num_loop(ds + tail, acc) == sp_num_loop(
            tail,
            (acc * pow10(ds.len()) + digits_val(ds)) as u64,
        ),
    decreases ds.len(),
{
    lemma_digits_val_nonneg(ds);
    if ds.len() == 0 {
        assert(ds + tail =~= tail);
        assert(pow10(0) == 1);
        assert(acc * pow10(ds.len()) + digits_val(ds) == acc) by (nonlinear_arith)
            requires
                pow10(ds.len()) == 1,
                digits_val(ds) == 0,
        ;
    } else {
        let s = ds + tail;
        let c = ds[0];
        let d = digit_val(c);
        let rest = ds.drop_first();
        assert(s[0] == c);
        assert(is_digit_char(c));
        assert(c != ';');
        assert(all_digits(rest)) by {
            assert(forall|i: int| 0 <= i < rest.len() ==> rest[i] == ds[i + 1]);
        }
        lemma_digits_val_nonneg(rest);
        lemma_digits_val_front(ds);
        let p = pow10((ds.len() - 1) as nat);
        assert(pow10(ds.len()) == 10 * p);
        assert(p >= 1) by {
            lemma_pow10_pos((ds.len() - 1) as nat);
        }
        let acc2 = acc * 10 + d;
        assert(acc2 * p + digits_val(rest) == acc * pow10(ds.len()) + digits_val(ds)) by (
        nonlinear_arith)
            requires
                digits_val(ds) == d * p + digits_val(rest),
                pow10(ds.len()) == 10 * p,
                acc2 == acc * 10 + d,
        ;
        assert(acc2 <= acc2 * p + digits_val(rest)) by (nonlinear_arith)
            requires
                p >= 1,
                acc2 >= 0,
                digits_val(rest) >= 0,
        ;
        assert(acc2 <= u64::MAX);
        assert(s.drop_first() =~= rest + tail);
        assert(pow10(rest.len()) == p);
        lemma_num_loop_digits(rest, tail, acc2 as u64);
        assert(sp_num_loop(s, acc) == sp_num_loop(s.drop_first(), acc2 as u64));
        assert(sp_num_loop(rest + tail, acc2 as u64) == sp_num_loop(
            tail,
            (acc2 * pow10(rest.len()) + digits_val(rest)) as u64,
        ));
        assert(acc2 as u64 * pow10(rest.len()) + digits_val(rest) == acc * pow10(ds.len())
            + digits_val(ds));
    }
}

proof fn lemma_pow10_pos(k: nat)
    ensures
        pow10(k) >= 1,
    decreases k,
{
    if k > 0 {
        lemma_pow10_pos((k - 1) as nat);
    }
}

proof fn lemma_parse_num_round(n: nat, rest: Seq<char>)
    requires
        n <= u64::MAX,
    ensures
        sp_parse_num(enc_num(n) + rest) == Some((n as u64, rest)),
{
    lemma_dec_digits_props(n);
    let ds = dec_digits(n);
    let s = enc_num(n) + rest;
    assert(s =~= ds + (seq![';'] + rest));
    assert(s[0] == ds[0]);
    assert(is_digit_char(s[0]));
    if n == 0 {
        assert(ds =~= seq![digit_char(0)]);
        assert(s.len() >= 2 ==> s[1] == ';');
        assert(!(s[0] == '0' && s.len() >= 2 && is_digit_char(s[1])));
    } else {
        assert(s[0] != '0');
    }
    assert(pow10(ds.len()) >= 1) by {
        lemma_pow10_pos(ds.len());
    }
    lemma_num_loop_digits(ds, seq![';'] + rest, 0);
    assert(0 * pow10(ds.len()) + digits_val(ds) == n);
    let t = seq![';'] + rest;
    assert(t[0] == ';');
    assert(t.drop_first() =~= rest);
    assert(sp_num_loop(t, n as u64) == Some((n as u64, rest)));
}

proof fn lemma_parse_str_round(s: Seq<char>, rest: Seq<char>)
    requires
        s.len() <= u64::MAX,
    ensures
        sp_parse_str(enc_str(s) + rest) == Some((s, rest)),
{
    assert(enc_str(s) + rest =~= enc_num(s.len()) + (s + rest));
    lemma_parse_num_round(s.len(), s + rest);
    let r = s + rest;
    assert(r.len() >= s.len());
    assert(r.take(s.len() as int) =~= s);
    assert(r.skip(s.len() as int) =~= rest);
}

proof fn lemma_enc_entries_front(ps: Seq<(Seq<char>, EntryV)>)
    requires
        ps.len() > 0,
    ensures
        enc_entries(ps) == enc_entry(ps[0]) + enc_entries(ps.drop_first()),
    decreases ps.len(),
{
    if ps.len() == 1 {
        assert(ps.drop_last() =~= Seq::<(Seq<char>, EntryV)>::empty());
        assert(ps.drop_first() =~= Seq::<(Seq<char>, EntryV)>::empty());
        assert(ps.last() == ps[0]);
        assert(enc_entries(ps) =~= enc_entry(ps[0]) + enc_entries(ps.drop_first()));
    } else {
        let hd = ps.drop_last();
        lemma_enc_entries_front(hd);
        assert(hd[0] == ps[0]);
        assert(hd.drop_first() =~= ps.drop_first().drop_last());
        assert(ps.drop_first().last() == ps.last());
        assert(enc_entries(ps.drop_first()) == enc_entries(ps.drop_first().drop_last())
            + enc_entry(ps.last()));
        assert(enc_entries(ps) =~= enc_entry(ps[0]) + enc_entries(ps.drop_first()));
    }
}

proof fn lemma_entries_round(
    ps: Seq<(Seq<char>, EntryV)>,
    lu: int,
    acc: Seq<(Seq<char>, EntryV)>,
    rest: Seq<char>,
)
    requires
        lu <= i64::MAX,
        unique_keys(acc + ps),
        forall|i: int| 0 <= i < ps.len() ==> entry_wf(#[trigger] ps[i], lu),
        forall|i: int|
            0 <= i < ps.len() ==> (#[trigger] ps[i]).0.len() <= u64::MAX
                && ps[i].1.value.len() <= u64::MAX,
    ensures
        sp_parse_entries(enc_entries(ps) + rest, ps.len(), lu, acc) == Some((acc + ps, rest)),
    decreases ps.len(),
{
    if ps.len() == 0 {
        assert(enc_entries(ps) + rest =~= rest);
        assert(acc + ps =~= acc);
    } else {
        let p = ps[0];
        lemma_enc_entries_front(ps);
        let r4 = enc_entries(ps.drop_first()) + rest;
        let r3 = enc_str(p.1.value) + r4;
        let r2 = enc_num(p.1.version as nat) + r3;
        let r1 = enc_num(p.1.time as nat) + r2;
        let s = enc_entries(ps) + rest;
        assert(s =~= enc_str(p.0) + r1);
        lemma_parse_str_round(p.0, r1);
        assert(!has_key(acc, p.0)) by {
            if has_key(acc, p.0) {
                let i = choose|i: int| 0 <= i < acc.len() && acc[i].0 == p.0;
                assert((acc + ps)[i].0 == p.0);
                assert((acc + ps)[acc.len() as int].0 == p.0);
            }
        }
        lemma_parse_num_round(p.1.time as nat, r2);
        assert(r1 =~= enc_num(p.1.time as nat) + r2);
        lemma_parse_num_round(p.1.version as nat, r3);
        lemma_parse_str_round(p.1.value, r4);
        let t64 = p.1.time as nat as u64;
        let v64 = p.1.version as nat as u64;
        assert(t64 as int == p.1.time);
        assert(v64 as int == p.1.version);
        let e = EntryV { time: t64 as int, version: v64 as int, value: p.1.value };
        assert(e == p.1);
        let acc2 = acc.push(p);
        assert(acc2 + ps.drop_first() =~= acc + ps);
        lemma_entries_round(ps.drop_first(), lu, acc2, rest);
        assert(forall|i: int|
            0 <= i < ps.drop_first().len() ==> ps.drop_first()[i] == ps[i + 1]);
    }
}

// ---------------------------------------------------------------------
// Executable token functions
// ---------------------------------------------------------------------
/// Relies on String's FromIterator over char: collecting an iterator of
/// characters yields the string of exactly those characters, in order.
#[verifier::external_body]
pub(crate) fn string_from_chars(v: &Vec<char>) -> (r: String)
    ensures
        r@ == v@,
{
    v.iter().collect()
}

/// Reads one number token starting at position `i`, exactly as
/// [`sp_parse_num`] reads the remaining text.
pub(crate) fn parse_num(cs: &Vec<char>, i: usize) -> (r: Option<(u64, usize)>)
    requires
        i <= cs@.len(),
    ensures
        match r {
            Some(p) => i <= p.1 <= cs@.len() && sp_parse_num(cs@.skip(i as int)) == Some(
                (p.0, cs@.skip(p.1 as int)),
            ),
            None => sp_parse_num(cs@.skip(i as int)) is None,
        },
{
    let n = cs.len();
    let ghost s0 = cs@.skip(i as int);
    if i >= n {
        return None;
    }
    proof {
        assert(s0[0] == cs@[i as int]);
    }
    let c0 = cs[i];
    if !('0' <= c0 && c0 <= '9') {
        return None;
    }
    if c0 == '0' && i + 1 < n {
        proof {
            assert(s0[1] == cs@[i as int + 1]);
        }
        let c1 = cs[i + 1];
        if '0' <= c1 && c1 <= '9' {
            return None;
        }
    }
    proof {
        assert(sp_parse_num(s0) == sp_num_loop(s0, 0));
    }
    let mut j: usize = i;
    let mut acc: u64 = 0;
    loop
        invariant
            i <= j <= n,
            n == cs@.len(),
            sp_parse_num(cs@.skip(i as int)) == sp_num_loop(cs@.skip(j as int), acc),
        decreases n - j,
    {
        if j >= n {
            proof {
                assert(cs@.skip(j as int).len() == 0);
            }
            return None;
        }
        proof {
            assert(cs@.skip(j as int)[0] == cs@[j as int]);
            assert(cs@.skip(j as int).drop_first() =~= cs@.skip(j as int + 1));
        }
        let c = cs[j];
        if c == ';' {
            return Some((acc, j + 1));
        }
        if !('0' <= c && c <= '9') {
            return None;
        }
        let d: u64 = (c as u32 - 48) as u64;
        proof {
            assert(d == digit_val(c));
        }
        let acc10 = match acc.checked_mul(10) {
            Some(x) => x,
            None => {
                proof {
                    assert(acc * 10 + digit_val(c) > u64::MAX);
                }
                return None;
            },
        };
        let acc2 = match acc10.checked_add(d) {
            Some(x) => x,
            None => {
                proof {
                    assert(acc * 10 + digit_val(c) > u64::MAX);
                }
                return None;
            },
        };
        proof {
            assert(sp_num_loop(cs@.skip(j as int), acc) == sp_num_loop(
                cs@.skip(j as int + 1),
                acc2,
            ));
        }
        acc = acc2;
        j = j + 1;
    }
}

/// Reads one string token starting at position `i`, exactly as
/// [`sp_parse_str`] reads the remaining text.
pub(crate) fn parse_str(cs: &Vec<char>, i: usize) -> (r: Option<(String, usize)>)
    requires
        i <= cs@.len(),
    ensures
        match r {
            Some(p) => i <= p.1 <= cs@.len() && sp_parse_str(cs@.skip(i as int)) == Some(
                (p.0@, cs@.skip(p.1 as int)),
            ),
            None => sp_parse_str(cs@.skip(i as int)) is None,
        },
{
    let ghost s0 = cs@.skip(i as int);
    match parse_num(cs, i) {
        None => None,
        Some((len64, j)) => {
            let remaining = cs.len() - j;
            proof {
                assert(cs@.skip(j as int).len() == remaining);
            }
            if len64 > remaining as u64 {
                return None;
            }
            let len = len64 as usize;
            let mut out: Vec<char> = Vec::new();
            let mut m: usize = 0;
            while m < len
                invariant
                    0 <= m <= len,
                    j + len <= cs@.len(),
                    cs@.len() <= usize::MAX,
                    out@ =~= cs@.subrange(j as int, j as int + m),
                decreases len - m,
            {
                out.push(cs[j + m]);
                m = m + 1;
            }
            let s = string_from_chars(&out);
            proof {
                assert(cs@.skip(j as int).take(len64 as int) =~= cs@.subrange(
                    j as int,
                    j as int + len as int,
                ));
                assert(cs@.skip(j as int).skip(len64 as int) =~= cs@.skip(j as int + len as int));
            }
            Some((s, j + len))
        },
    }
}

/// Appends the decimal digits of `n` to `out`.
pub(crate) fn push_digits(out: &mut Vec<char>, n: u64)
    ensures
        final(out)@ == old(out)@ + dec_digits(n as nat),
    decreases n,
{
    if n < 10 {
        let c: char = (48 + n as u8) as char;
        out.push(c);
        proof {
            assert(out@ =~= old(out)@ + dec_digits(n as nat));
        }
    } else {
        push_digits(out, n / 10);
        let c: char = (48 + (n % 10) as u8) as char;
        out.push(c);
        proof {
            assert(dec_digits(n as nat) == dec_digits(n as nat / 10).push(
                digit_char((n as nat % 10) as int),
            ));
            assert(n as nat / 10 == (n / 10) as nat);
            assert(digit_char((n as nat % 10) as int) == c);
            assert(out@ =~= old(out)@ + dec_digits(n as nat));
        }
    }
}

/// Appends one number token to `out`.
pub(crate) fn push_num(out: &mut Vec<char>, n: u64)
    ensures
        final(out)@ == old(out)@ + enc_num(n as nat),
{
    push_digits(out, n);
    out.push(';');
    proof {
        assert(out@ =~= old(out)@ + enc_num(n as nat));
    }
}

/// Appends one string token to `out`; doing so shows the string is short
/// enough to read back.
pub(crate) fn push_str_tok(out: &mut Vec<char>, s: &String)
    ensures
        final(out)@ == old(out)@ + enc_str(s@),
        s@.len() <= u64::MAX,
{
    let l = s.as_str().unicode_len();
    push_num(out, l as u64);
    let ghost mid = out@;
    let mut m: usize = 0;
    while m < l
        invariant
            0 <= m <= l,
            l == s@.len(),
            out@ =~= mid + s@.take(m as int),
        decreases l - m,
    {
        let c = s.as_str().get_char(m);
        out.push(c);
        proof {
            assert(s@.take(m as int + 1) =~= s@.take(m as int).push(s@[m as int]));
        }
        m = m + 1;
    }
    proof {
        assert(s@.take(l as int) =~= s@);
        assert(out@ =~= old(out)@ + enc_str(s@));
    }
}

/// Decoding inverts encoding: the snapshot text of any well-formed,
/// machine-bounded snapshot value reads back as exactly that value. This is
/// the store's persistence round trip, entries, metrics and path alike.
pub proof fn lemma_snapshot_round_trip(s: SnapV)
    requires
        snap_wf(s),
        snap_bounded(s),
    ensures
        spec_decode(spec_encode(s)) == Some(s),
{
    let r5 = enc_entries(s.pairs);
    let r4 = enc_num(s.pairs.len()) + r5;
    let r3 = enc_str(s.path) + r4;
    let r2 = enc_num(s.size as nat) + r3;
    let r1 = enc_num(s.last_write as nat) + r2;
    let r0 = enc_num(s.last_update as nat) + r1;
    let t = spec_encode(s);
    assert(t =~= magic() + r0);
    assert(t.len() >= 5);
    assert(t.take(5) =~= magic());
    assert(t.skip(5) =~= r0);
    lemma_parse_num_round(s.last_update as nat, r1);
    lemma_parse_num_round(s.last_write as nat, r2);
    lemma_parse_num_round(s.size as nat, r3);
    lemma_parse_str_round(s.path, r4);
    lemma_parse_num_round(s.pairs.len(), r5);
    assert(r5 =~= enc_entries(s.pairs) + Seq::<char>::empty());
    assert(Seq::<(Seq<char>, EntryV)>::empty() + s.pairs =~= s.pairs);
    lemma_entries_round(s.pairs, s.last_update, Seq::empty(), Seq::empty());
    let lu64 = s.last_update as nat as u64;
    let lw64 = s.last_write as nat as u64;
    let size64 = s.size as nat as u64;
    assert(lu64 as int == s.last_update);
    assert(lw64 as int == s.last_write);
    assert(size64 as int == s.size);
    assert(s.pairs.len() as u64 == size64);
    let out = SnapV {
        path: s.path,
        last_update: lu64 as int,
        last_write: lw64 as int,
        size: size64 as int,
        pairs: s.pairs,
    };
    assert(out == s);
}

} // verus!
