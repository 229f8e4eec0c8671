//! The textual on-disk schema of the program state, with a verified writer
//! and a strict, verified reader.
//!
//! A state with no entries is written as the single line `images: {}`. A
//! state with entries is written as the line `images:` followed, for each
//! entry in storage order, by the key (double-quoted, with `"` and `\`
//! escaped by a backslash) and its timestamp's `secs` and `nanos` fields:
//!
//! ```text
//! images:
//!   "img:sha256:abc":
//!     secs: 1000
//!     nanos: 0
//! ```
//!
//! The reader accepts exactly the texts the writer produces for well-formed
//! states; anything else — an unknown field, a missing field, a malformed
//! number, a duplicate key — is rejected as a whole.

use vstd::prelude::*;

use crate::digits::{
    all_digits, canonical_numeral, dec_digits, digit_val, digits_val, is_digit,
    lemma_canonical_is_dec_digits, lemma_dec_digits, lemma_digit_run_unique,
    lemma_digits_val_append, lemma_pow10_positive, pow10, push_dec_u64,
};
use crate::state::{keys_distinct, wf_entries, State, Timestamp};
use vstd::string::StrSliceExecFns;

verus! {

/// Deserialized content that does not conform to the schema is rejected
/// with this error, as a whole: no partial recovery is attempted.
#[derive(Clone, Copy, PartialEq, Eq, Structural, Debug)]
pub struct ParseError;

/// The escaping of one key character: a backslash is put before a double
/// quote or a backslash; every other character stands as itself.
pub open spec fn esc_char(c: char) -> Seq<char> {
    if c == '"' || c == '\\' {
        seq!['\\', c]
    } else {
        seq![c]
    }
}

/// The escaping of a key.
pub open spec fn esc(s: Seq<char>) -> Seq<char>
    decreases s.len(),
{
    if s.len() == 0 {
        Seq::empty()
    } else {
        esc_char(s[0]) + esc(s.drop_first())
    }
}

/// The whole text of a state with no entries.
pub open spec fn tok_empty() -> Seq<char> {
    seq!['i', 'm', 'a', 'g', 'e', 's', ':', ' ', '{', '}', '\n']
}

/// The first line of a state with entries.
pub open spec fn tok_header() -> Seq<char> {
    seq!['i', 'm', 'a', 'g', 'e', 's', ':', '\n']
}

/// The indentation and opening quote before a key.
pub open spec fn tok_key_open() -> Seq<char> {
    seq![' ', ' ', '"']
}

/// From after a key's closing quote to just before the seconds numeral.
pub open spec fn tok_after_key() -> Seq<char> {
    seq![':', '\n', ' ', ' ', ' ', ' ', 's', 'e', 'c', 's', ':', ' ']
}

/// From after the seconds numeral to just before the nanoseconds numeral.
pub open spec fn tok_nanos() -> Seq<char> {
    seq!['\n', ' ', ' ', ' ', ' ', 'n', 'a', 'n', 'o', 's', ':', ' ']
}

/// The line break that closes an entry.
pub open spec fn tok_nl() -> Seq<char> {
    seq!['\n']
}

/// The text of one entry.
pub open spec fn render_entry(k: Seq<char>, ts: Timestamp) -> Seq<char> {
    tok_key_open() + (esc(k) + (seq!['"'] + (tok_after_key() + (dec_digits(ts.secs as nat) + (
    tok_nanos() + (dec_digits(ts.nanos as nat) + tok_nl()))))))
}

/// The text of a sequence of entries, in order.
pub open spec fn render_entries(es: Seq<(Seq<char>, Timestamp)>) -> Seq<char>
    decreases es.len(),
{
    if es.len() == 0 {
        Seq::empty()
    } else {
        render_entry(es[0].0, es[0].1) + render_entries(es.drop_first())
    }
}

/// The whole on-disk text of a state.
pub open spec fn render_state(es: Seq<(Seq<char>, Timestamp)>) -> Seq<char> {
    if es.len() == 0 {
        tok_empty()
    } else {
        tok_header() + render_entries(es)
    }
}

/// What a text denotes: the one well-formed entry sequence whose rendering
/// is that text, if such a sequence exists.
pub open spec fn spec_parse(t: Seq<char>) -> Option<Seq<(Seq<char>, Timestamp)>> {
    if exists|es: Seq<(Seq<char>, Timestamp)>| wf_entries(es) && render_state(es) == t {
        Some(choose|es: Seq<(Seq<char>, Timestamp)>| wf_entries(es) && render_state(es) == t)
    } else {
        None
    }
}

/// Escaping distributes over appending one character.
pub proof fn lemma_esc_push(s: Seq<char>, c: char)
    ensures
        esc(s.push(c)) == esc(s) + esc_char(c),
    decreases s.len(),
{
    if s.len() == 0 {
        assert(s.push(c) =~= seq![c]);
        assert(seq![c].drop_first() =~= Seq::<char>::empty());
        assert(esc(seq![c]) == esc_char(c) + esc(Seq::<char>::empty()));
        assert(esc_char(c) + Seq::<char>::empty() =~= esc_char(c));
        assert(esc(s) + esc_char(c) =~= esc_char(c));
    } else {
        assert(s.push(c).drop_first() =~= s.drop_first().push(c));
        assert(s.push(c)[0] == s[0]);
        lemma_esc_push(s.drop_first(), c);
        assert(esc(s.push(c)) == esc_char(s[0]) + (esc(s.drop_first()) + esc_char(c)));
        assert(esc_char(s[0]) + (esc(s.drop_first()) + esc_char(c)) =~= (esc_char(s[0]) + esc(
            s.drop_first(),
        )) + esc_char(c));
    }
}

/// Two escaped keys, each closed by an unescaped double quote, can only cut
/// one text in one way: the shorter key is a prefix of the other, and the
/// rest of the text realigns accordingly.
pub proof fn lemma_esc_split(k: Seq<char>, d: Seq<char>, t1: Seq<char>, t2: Seq<char>)
    requires
        esc(k) + t1 == esc(d) + t2,
        t1.len() > 0,
        t1[0] == '"',
    ensures
        d.len() <= k.len(),
        d == k.take(d.len() as int),
        t2 == esc(k.skip(d.len() as int)) + t1,
    decreases d.len(),
{
    if d.len() == 0 {
        assert(esc(d) =~= Seq::<char>::empty());
        assert(d =~= k.take(0));
        assert(k.skip(0) =~= k);
        assert(esc(d) + t2 =~= t2);
        assert(t2 =~= esc(k) + t1);
    } else {
        let whole = esc(k) + t1;
        if k.len() == 0 {
            assert(esc(k) =~= Seq::<char>::empty());
            assert(whole =~= t1);
            assert(whole[0] == '"');
            // The right side starts with the escaping of d's first
            // character, which is never an unescaped quote.
            assert((esc(d) + t2)[0] == esc(d)[0]);
            assert(esc(d)[0] == esc_char(d[0])[0]);
            if d[0] == '"' || d[0] == '\\' {
                assert(esc_char(d[0])[0] == '\\');
            } else {
                assert(esc_char(d[0])[0] == d[0]);
            }
            assert(false);
        } else {
            let kc = esc_char(k[0]);
            let dc = esc_char(d[0]);
            assert(esc(k) == kc + esc(k.drop_first()));
            assert(esc(d) == dc + esc(d.drop_first()));
            let krest = esc(k.drop_first()) + t1;
            let drest = esc(d.drop_first()) + t2;
            assert(kc + krest =~= esc(k) + t1);
            assert(dc + drest =~= esc(d) + t2);
            // First characters agree; the escape marker tells the two
            // shapes apart, so the first key characters agree too.
            assert((kc + krest)[0] == kc[0]);
            assert((dc + drest)[0] == dc[0]);
            if k[0] == '"' || k[0] == '\\' {
                if d[0] == '"' || d[0] == '\\' {
                    assert(kc[0] == '\\' && dc[0] == '\\');
                    assert((kc + krest)[1] == k[0]);
                    assert((dc + drest)[1] == d[0]);
                    assert(k[0] == d[0]);
                    assert(krest =~= (kc + krest).skip(2));
                    assert(drest =~= (dc + drest).skip(2));
                } else {
                    assert(kc[0] == '\\');
                    assert(dc[0] == d[0]);
                    assert(k[0] == '\\' || k[0] == '"');
                    assert(d[0] != '\\' && d[0] != '"');
                    assert(kc[0] == dc[0]);
                    // d's first character would have to be the backslash
                    // that starts k's escape pair.
                    assert(false);
                }
            } else {
                if d[0] == '"' || d[0] == '\\' {
                    assert(kc[0] == k[0]);
                    assert(dc[0] == '\\');
                    assert(k[0] == '\\');
                    assert(false);
                } else {
                    assert(kc[0] == k[0] && dc[0] == d[0]);
                    assert(k[0] == d[0]);
                    assert(krest =~= (kc + krest).skip(1));
                    assert(drest =~= (dc + drest).skip(1));
                }
            }
            assert(krest == drest);
            lemma_esc_split(k.drop_first(), d.drop_first(), t1, t2);
            assert(d.drop_first() == k.drop_first().take(d.len() - 1));
            assert(d =~= k.take(d.len() as int)) by {
                assert(forall|i: int|
                    1 <= i < d.len() ==> d[i] == k.drop_first().take(d.len() - 1)[i - 1]);
            }
            assert(k.drop_first().skip(d.len() - 1) =~= k.skip(d.len() as int));
        }
    }
}

/// The text of a list of entries with one more entry at its end.
pub proof fn lemma_render_entries_push(es: Seq<(Seq<char>, Timestamp)>, k: Seq<char>, ts: Timestamp)
    ensures
        render_entries(es.push((k, ts))) == render_entries(es) + render_entry(k, ts),
    decreases es.len(),
{
    if es.len() == 0 {
        assert(es.push((k, ts)).drop_first() =~= Seq::<(Seq<char>, Timestamp)>::empty());
        assert(render_entries(es.push((k, ts))) == render_entry(k, ts) + render_entries(
            Seq::<(Seq<char>, Timestamp)>::empty(),
        ));
        assert(render_entry(k, ts) + Seq::<char>::empty() =~= render_entry(k, ts));
        assert(render_entries(es) + render_entry(k, ts) =~= render_entry(k, ts));
    } else {
        assert(es.push((k, ts)).drop_first() =~= es.drop_first().push((k, ts)));
        assert(es.push((k, ts))[0] == es[0]);
        lemma_render_entries_push(es.drop_first(), k, ts);
        assert(render_entries(es.push((k, ts))) == render_entry(es[0].0, es[0].1) + (render_entries(
            es.drop_first(),
        ) + render_entry(k, ts)));
        assert(render_entry(es[0].0, es[0].1) + (render_entries(es.drop_first()) + render_entry(
            k,
            ts,
        )) =~= (render_entry(es[0].0, es[0].1) + render_entries(es.drop_first())) + render_entry(
            k,
            ts,
        ));
    }
}

/// Only the empty list of entries has an empty text.
pub proof fn lemma_render_entries_empty(es: Seq<(Seq<char>, Timestamp)>)
    ensures
        (render_entries(es).len() == 0) == (es.len() == 0),
{
    if es.len() > 0 {
        assert(render_entries(es) == render_entry(es[0].0, es[0].1) + render_entries(
            es.drop_first(),
        ));
        assert(render_entry(es[0].0, es[0].1).len() >= 3);
    }
}

/// The characters of a string, as a vector.
pub fn chars_of_str(s: &str) -> (r: Vec<char>)
    ensures
        r@ == s@,
{
    let n = s.unicode_len();
    let mut r: Vec<char> = Vec::new();
    let mut i: usize = 0;
    while i < n
        invariant
            n == s@.len(),
            i <= n,
            r@ == s@.take(i as int),
        decreases n - i,
    {
        r.push(s.get_char(i));
        proof {
            assert(r@ =~= s@.take(i + 1));
        }
        i += 1;
    }
    proof {
        assert(s@.take(n as int) =~= s@);
    }
    r
}

/// Relies on `String::from_iter` over `char`: the collected string holds
/// exactly the characters of the iterator, in order.
#[verifier::external_body]
fn string_of_chars(v: &Vec<char>) -> (r: String)
    ensures
        r@ == v@,
{
    v.iter().collect()
}

/// Write the escaped form of `k` after the characters already in `out`.
fn push_escaped(out: &mut Vec<char>, k: &str)
    ensures
        final(out)@ == old(out)@ + esc(k@),
{
    let kc = chars_of_str(k);
    let n = kc.len();
    let mut i: usize = 0;
    proof {
        assert(esc(kc@.take(0)) =~= Seq::<char>::empty());
        assert(out@ =~= old(out)@ + esc(kc@.take(0)));
    }
    while i < n
        invariant
            kc@ == k@,
            n == kc@.len(),
            i <= n,
            out@ == old(out)@ + esc(kc@.take(i as int)),
        decreases n - i,
    {
        let c = kc[i];
        if c == '"' || c == '\\' {
            out.push('\\');
        }
        out.push(c);
        proof {
            assert(kc@.take(i + 1) =~= kc@.take(i as int).push(c));
            lemma_esc_push(kc@.take(i as int), c);
            if c == '"' || c == '\\' {
                assert(esc_char(c) =~= seq!['\\', c]);
            } else {
                assert(esc_char(c) =~= seq![c]);
            }
            assert(out@ =~= old(out)@ + esc(kc@.take(i + 1)));
        }
        i += 1;
    }
    proof {
        assert(kc@.take(n as int) =~= k@);
    }
}

/// Write the text of one entry after the characters already in `out`.
#[verifier::rlimit(60)]
fn push_entry(out: &mut Vec<char>, key: &String, ts: Timestamp)
    ensures
        final(out)@ == old(out)@ + render_entry(key@, ts),
{
    out.push(' ');
    out.push(' ');
    out.push('"');
    proof {
        assert(out@ =~= old(out)@ + tok_key_open());
    }
    let ghost p1 = out@;
    push_escaped(out, key.as_str());
    let ghost p2 = out@;
    out.push('"');
    out.push(':');
    out.push('\n');
    out.push(' ');
    out.push(' ');
    out.push(' ');
    out.push(' ');
    out.push('s');
    out.push('e');
    out.push('c');
    out.push('s');
    out.push(':');
    out.push(' ');
    proof {
        assert(out@ =~= p2 + (seq!['"'] + tok_after_key()));
    }
    let ghost p3 = out@;
    push_dec_u64(out, ts.secs);
    let ghost p4 = out@;
    out.push('\n');
    out.push(' ');
    out.push(' ');
    out.push(' ');
    out.push(' ');
    out.push('n');
    out.push('a');
    out.push('n');
    out.push('o');
    out.push('s');
    out.push(':');
    out.push(' ');
    proof {
        assert(out@ =~= p4 + tok_nanos());
    }
    push_dec_u64(out, ts.nanos as u64);
    out.push('\n');
    proof {
        let ds = dec_digits(ts.secs as nat);
        let dn = dec_digits(ts.nanos as nat);
        let p5 = p4 + tok_nanos();
        assert(out@ =~= p5 + (dn + tok_nl()));
        assert(out@ =~= p4 + (tok_nanos() + (dn + tok_nl())));
        assert(p4 == p3 + ds);
        assert(out@ =~= p3 + (ds + (tok_nanos() + (dn + tok_nl()))));
        assert(p3 == p2 + (seq!['"'] + tok_after_key()));
        assert(out@ =~= p2 + (seq!['"'] + (tok_after_key() + (ds + (tok_nanos() + (dn
            + tok_nl()))))));
        assert(p2 == p1 + esc(key@));
        assert(out@ =~= p1 + (esc(key@) + (seq!['"'] + (tok_after_key() + (ds + (tok_nanos() + (dn
            + tok_nl())))))));
        assert(p1 == old(out)@ + tok_key_open());
        assert(out@ =~= old(out)@ + render_entry(key@, ts));
    }
}

/// Serialize a state to its on-disk text. Serialization cannot fail: every
/// state has a rendering.
pub fn to_text(s: &State) -> (r: String)
    ensures
        r@ == render_state(s.entries()),
{
    let ghost es = s.entries();
    let n = s.entry_count();
    let mut out: Vec<char> = Vec::new();
    if n == 0 {
        out.push('i');
        out.push('m');
        out.push('a');
        out.push('g');
        out.push('e');
        out.push('s');
        out.push(':');
        out.push(' ');
        out.push('{');
        out.push('}');
        out.push('\n');
        proof {
            assert(out@ =~= tok_empty());
        }
        return string_of_chars(&out);
    }
    out.push('i');
    out.push('m');
    out.push('a');
    out.push('g');
    out.push('e');
    out.push('s');
    out.push(':');
    out.push('\n');
    proof {
        assert(render_entries(es.take(0)) =~= Seq::<char>::empty());
        assert(out@ =~= tok_header() + render_entries(es.take(0)));
    }
    let mut i: usize = 0;
    while i < n
        invariant
            es == s.entries(),
            n == es.len(),
            i <= n,
            out@ == tok_header() + render_entries(es.take(i as int)),
        decreases n - i,
    {
        let ghost out0 = out@;
        let e = s.entry_at(i);
        push_entry(&mut out, e.0, e.1);
        proof {
            let k = es[i as int].0;
            let ts = es[i as int].1;
            lemma_render_entries_push(es.take(i as int), k, ts);
            assert(es.take(i + 1) =~= es.take(i as int).push((k, ts)));
            assert(out@ =~= tok_header() + render_entries(es.take(i + 1)));
        }
        i += 1;
    }
    proof {
        assert(es.take(n as int) =~= es);
        assert(render_state(es) == tok_header() + render_entries(es));
    }
    string_of_chars(&out)
}

/// If a text region splits as `a + b`, the region is long enough and each
/// part is the matching subrange.
proof fn lemma_prefix_parts(v: Seq<char>, pos: int, a: Seq<char>, b: Seq<char>)
    requires
        0 <= pos <= v.len(),
        v.subrange(pos, v.len() as int) == a + b,
    ensures
        pos + a.len() <= v.len(),
        v.subrange(pos, pos + a.len()) == a,
        v.subrange(pos + a.len(), v.len() as int) == b,
{
    assert(v.subrange(pos, v.len() as int).len() == a.len() + b.len());
    assert(v.subrange(pos, pos + a.len()) =~= a) by {
        assert(forall|i: int|
            0 <= i < a.len() ==> v.subrange(pos, v.len() as int)[i] == (a + b)[i]);
    }
    assert forall|i: int| 0 <= i < b.len() implies v.subrange(
        pos + a.len(),
        v.len() as int,
    )[i] == b[i] by {
        assert((a + b)[a.len() + i] == b[i]);
        assert(v.subrange(pos, v.len() as int)[a.len() + i] == v[pos + a.len() + i]);
    }
    assert(v.subrange(pos + a.len(), v.len() as int) =~= b);
}

/// How an escaped key region begins, read off its first one or two
/// characters.
proof fn lemma_esc_shape(k2: Seq<char>, t: Seq<char>)
    requires
        t.len() > 0,
        t[0] == '"',
    ensures
        (esc(k2) + t).len() >= t.len(),
        k2.len() == 0 ==> esc(k2) + t == t && (esc(k2) + t)[0] == '"',
        k2.len() > 0 && !(k2[0] == '"' || k2[0] == '\\') ==> (esc(k2) + t)[0] == k2[0] && (esc(k2)
            + t)[0] != '"' && (esc(k2) + t)[0] != '\\',
        k2.len() > 0 && (k2[0] == '"' || k2[0] == '\\') ==> (esc(k2) + t).len() >= 2 + t.len() && (
        esc(k2) + t)[0] == '\\' && (esc(k2) + t)[1] == k2[0],
{
    if k2.len() == 0 {
        assert(esc(k2) + t =~= t);
    } else {
        assert(esc(k2) == esc_char(k2[0]) + esc(k2.drop_first()));
        assert((esc_char(k2[0]) + esc(k2.drop_first())) + t =~= esc_char(k2[0]) + (esc(
            k2.drop_first(),
        ) + t));
        if k2[0] == '"' || k2[0] == '\\' {
            assert((esc(k2) + t)[0] == esc_char(k2[0])[0]);
            assert((esc(k2) + t)[1] == esc_char(k2[0])[1]);
        } else {
            assert((esc(k2) + t)[0] == esc_char(k2[0])[0]);
        }
    }
}

/// Classify one character as a decimal digit.
fn digit_of(c: char) -> (r: Option<u8>)
    ensures
        match r {
            Some(d) => is_digit(c) && d == digit_val(c),
            None => !is_digit(c),
        },
{
    if c == '0' {
        Some(0)
    } else if c == '1' {
        Some(1)
    } else if c == '2' {
        Some(2)
    } else if c == '3' {
        Some(3)
    } else if c == '4' {
        Some(4)
    } else if c == '5' {
        Some(5)
    } else if c == '6' {
        Some(6)
    } else if c == '7' {
        Some(7)
    } else if c == '8' {
        Some(8)
    } else if c == '9' {
        Some(9)
    } else {
        None
    }
}

/// Whether the text holds exactly `pat` beginning at `pos`.
fn expect(v: &Vec<char>, pos: usize, pat: &Vec<char>) -> (b: bool)
    requires
        pos <= v@.len(),
    ensures
        b == (pos + pat@.len() <= v@.len() && v@.subrange(pos as int, pos + pat@.len()) == pat@),
{
    let m = pat.len();
    let n = v.len();
    if m > n - pos {
        return false;
    }
    let mut j: usize = 0;
    while j < m
        invariant
            pos + m <= n,
            n == v@.len(),
            m == pat@.len(),
            j <= m,
            forall|t: int| 0 <= t < j ==> v@[pos + t] == pat@[t],
        decreases m - j,
    {
        if v[pos + j] != pat[j] {
            proof {
                assert(v@.subrange(pos as int, pos + m) != pat@) by {
                    if v@.subrange(pos as int, pos + m) == pat@ {
                        assert(v@.subrange(pos as int, pos + m)[j as int] == v@[pos + j]);
                    }
                }
            }
            return false;
        }
        j += 1;
    }
    proof {
        assert(v@.subrange(pos as int, pos + m) =~= pat@);
    }
    true
}

/// The indentation and opening quote before a key, as a vector.
fn tok_key_open_vec() -> (t: Vec<char>)
    ensures
        t@ == tok_key_open(),
{
    let mut t: Vec<char> = Vec::new();
    t.push(' ');
    t.push(' ');
    t.push('"');
    proof {
        assert(t@ =~= tok_key_open());
    }
    t
}

/// The text between a key and its seconds numeral, as a vector.
fn tok_after_key_vec() -> (t: Vec<char>)
    ensures
        t@ == tok_after_key(),
{
    let mut t: Vec<char> = Vec::new();
    t.push(':');
    t.push('\n');
    t.push(' ');
    t.push(' ');
    t.push(' ');
    t.push(' ');
    t.push('s');
    t.push('e');
    t.push('c');
    t.push('s');
    t.push(':');
    t.push(' ');
    proof {
        assert(t@ =~= tok_after_key());
    }
    t
}

/// The text between the seconds and nanoseconds numerals, as a vector.
fn tok_nanos_vec() -> (t: Vec<char>)
    ensures
        t@ == tok_nanos(),
{
    let mut t: Vec<char> = Vec::new();
    t.push('\n');
    t.push(' ');
    t.push(' ');
    t.push(' ');
    t.push(' ');
    t.push('n');
    t.push('a');
    t.push('n');
    t.push('o');
    t.push('s');
    t.push(':');
    t.push(' ');
    proof {
        assert(t@ =~= tok_nanos());
    }
    t
}

/// Read an escaped key from `pos` up to and including its closing quote.
fn scan_key(v: &Vec<char>, pos: usize) -> (r: Option<(Vec<char>, usize)>)
    requires
        pos <= v@.len(),
    ensures
        match r {
            Some(p) => {
                &&& pos <= p.1 <= v@.len()
                &&& v@.subrange(pos as int, p.1 as int) == esc(p.0@) + seq!['"']
            },
            None => forall|k: Seq<char>, rr: Seq<char>|
                v@.subrange(pos as int, v@.len() as int) != esc(k) + (seq!['"'] + rr),
        },
{
    let n = v.len();
    let mut i: usize = pos;
    let mut key: Vec<char> = Vec::new();
    proof {
        assert(v@.subrange(pos as int, pos as int) =~= esc(key@));
    }
    while i < n
        invariant
            pos <= i <= n,
            n == v@.len(),
            v@.subrange(pos as int, i as int) == esc(key@),
        decreases n - i,
    {
        let c = v[i];
        if c == '"' {
            proof {
                assert(v@.subrange(pos as int, i + 1) =~= esc(key@) + seq!['"']);
            }
            return Some((key, i + 1));
        } else if c == '\\' {
            if i + 1 < n {
                let c2 = v[i + 1];
                if c2 == '"' || c2 == '\\' {
                    let ghost key0 = key@;
                    key.push(c2);
                    proof {
                        lemma_esc_push(key0, c2);
                        assert(esc_char(c2) =~= seq!['\\', c2]);
                        assert(v@.subrange(pos as int, i + 2) =~= esc(key0) + seq!['\\', c2]);
                    }
                    i += 2;
                } else {
                    proof {
                        scan_key_reject(v@, pos as int, i as int, key@);
                    }
                    return None;
                }
            } else {
                proof {
                    scan_key_reject(v@, pos as int, i as int, key@);
                }
                return None;
            }
        } else {
            let ghost key0 = key@;
            key.push(c);
            proof {
                lemma_esc_push(key0, c);
                assert(esc_char(c) =~= seq![c]);
                assert(v@.subrange(pos as int, i + 1) =~= esc(key0) + seq![c]);
            }
            i += 1;
        }
    }
    proof {
        scan_key_reject(v@, pos as int, i as int, key@);
    }
    None
}

/// At a point where the key scan stops without a closing quote — the text
/// ran out, or a backslash is not followed by a quote or a backslash — no
/// escaped, quote-closed key can begin the region.
proof fn scan_key_reject(v: Seq<char>, pos: int, i: int, key: Seq<char>)
    requires
        0 <= pos <= i <= v.len(),
        v.subrange(pos, i) == esc(key),
        i == v.len() || (v[i] == '\\' && (i + 1 >= v.len() || !(v[i + 1] == '"' || v[i + 1]
            == '\\'))),
    ensures
        forall|k: Seq<char>, rr: Seq<char>| v.subrange(pos, v.len() as int) != esc(k) + (seq!['"']
            + rr),
{
    let tail = v.subrange(i, v.len() as int);
    assert(v.subrange(pos, v.len() as int) =~= esc(key) + tail);
    assert forall|k: Seq<char>, rr: Seq<char>| v.subrange(pos, v.len() as int) != esc(k) + (seq![
        '"',
    ] + rr) by {
        if v.subrange(pos, v.len() as int) == esc(k) + (seq!['"'] + rr) {
            let t1 = seq!['"'] + rr;
            assert(t1[0] == '"');
            lemma_esc_split(k, key, t1, tail);
            let k2 = k.skip(key.len() as int);
            lemma_esc_shape(k2, t1);
            assert(tail == esc(k2) + t1);
            if i == v.len() {
                assert(tail.len() == 0);
                assert((esc(k2) + t1).len() >= 1);
            } else {
                assert(tail[0] == v[i]);
                assert(v[i] == '\\');
                if k2.len() == 0 {
                    assert(tail[0] == '"');
                } else if !(k2[0] == '"' || k2[0] == '\\') {
                    assert(tail[0] != '\\');
                } else {
                    assert(tail.len() >= 2);
                    assert(i + 1 < v.len());
                    assert(tail[1] == v[i + 1]);
                    assert(tail[1] == k2[0]);
                    assert(v[i + 1] == '"' || v[i + 1] == '\\');
                }
            }
            assert(false);
        }
    }
}

/// If the maximal digit run from `pos` is `v[pos..end]`, a numeral that
/// begins the region there must be exactly that run.
proof fn lemma_run_forces(v: Seq<char>, pos: int, end: int, x: u64, rr: Seq<char>)
    requires
        0 <= pos <= end <= v.len(),
        forall|j: int| pos <= j < end ==> is_digit(#[trigger] v[j]),
        end == v.len() || !is_digit(v[end]),
        rr.len() == 0 || !is_digit(rr[0]),
        v.subrange(pos, v.len() as int) == dec_digits(x as nat) + rr,
    ensures
        v.subrange(pos, end) == dec_digits(x as nat),
        digits_val(v.subrange(pos, end)) == x,
        end - pos == dec_digits(x as nat).len(),
{
    lemma_dec_digits(x as nat);
    let run = v.subrange(pos, end);
    let r1 = v.subrange(end, v.len() as int);
    assert(run + r1 =~= v.subrange(pos, v.len() as int));
    assert(all_digits(run)) by {
        assert(forall|j: int| 0 <= j < run.len() ==> run[j] == v[pos + j]);
    }
    if end < v.len() {
        assert(r1[0] == v[end]);
    }
    lemma_digit_run_unique(run, r1, dec_digits(x as nat), rr);
}

/// Read a canonical decimal numeral that fits in a `u64`, beginning at
/// `pos` and extending over every consecutive digit.
fn parse_u64(v: &Vec<char>, pos: usize) -> (r: Option<(u64, usize)>)
    requires
        pos <= v@.len(),
    ensures
        match r {
            Some(p) => {
                &&& pos < p.1 <= v@.len()
                &&& v@.subrange(pos as int, p.1 as int) == dec_digits(p.0 as nat)
                &&& (p.1 == v@.len() || !is_digit(v@[p.1 as int]))
            },
            None => forall|x: u64, rr: Seq<char>|
                (rr.len() == 0 || !is_digit(rr[0])) ==> v@.subrange(pos as int, v@.len() as int)
                    != dec_digits(x as nat) + rr,
        },
{
    let n = v.len();
    let mut end: usize = pos;
    let mut stop = false;
    while !stop && end < n
        invariant
            pos <= end <= n,
            n == v@.len(),
            forall|j: int| pos <= j < end ==> is_digit(#[trigger] v@[j]),
            stop ==> end < n && !is_digit(v@[end as int]),
        decreases n - end, (if stop { 0int } else { 1int }),
    {
        match digit_of(v[end]) {
            Some(_) => {
                end += 1;
            },
            None => {
                stop = true;
            },
        }
    }
    if end == pos {
        proof {
            assert forall|x: u64, rr: Seq<char>| (rr.len() == 0 || !is_digit(rr[0])) implies v@
                .subrange(pos as int, v@.len() as int) != dec_digits(x as nat) + rr by {
                if v@.subrange(pos as int, v@.len() as int) == dec_digits(x as nat) + rr {
                    lemma_run_forces(v@, pos as int, end as int, x, rr);
                    lemma_dec_digits(x as nat);
                }
            }
        }
        return None;
    }
    if v[pos] == '0' && end > pos + 1 {
        proof {
            assert forall|x: u64, rr: Seq<char>| (rr.len() == 0 || !is_digit(rr[0])) implies v@
                .subrange(pos as int, v@.len() as int) != dec_digits(x as nat) + rr by {
                if v@.subrange(pos as int, v@.len() as int) == dec_digits(x as nat) + rr {
                    lemma_run_forces(v@, pos as int, end as int, x, rr);
                    lemma_dec_digits(x as nat);
                    assert(v@.subrange(pos as int, end as int)[0] == v@[pos as int]);
                }
            }
        }
        return None;
    }
    let mut x: u64 = 0;
    let mut i: usize = pos;
    proof {
        assert(v@.subrange(pos as int, pos as int) =~= Seq::<char>::empty());
        assert(digits_val(Seq::<char>::empty()) == 0);
    }
    while i < end
        invariant
            pos <= i <= end <= n,
            n == v@.len(),
            forall|j: int| pos <= j < end ==> is_digit(#[trigger] v@[j]),
            end == n || !is_digit(v@[end as int]),
            x == digits_val(v@.subrange(pos as int, i as int)),
            v@[pos as int] == '0' ==> end == pos + 1,
            end > pos,
        decreases end - i,
    {
        let d: u8 = match digit_of(v[i]) {
            Some(d) => d,
            None => {
                proof {
                    assert(false);
                }
                0
            },
        };
        if x > (u64::MAX - (d as u64)) / 10 {
            proof {
                let pre = v@.subrange(pos as int, i + 1);
                assert(pre.drop_last() =~= v@.subrange(pos as int, i as int));
                assert(pre.last() == v@[i as int]);
                assert(digits_val(pre) == (x as nat) * 10 + digit_val(v@[i as int]));
                assert((x as nat) * 10 + (d as nat) > u64::MAX) by (nonlinear_arith)
                    requires
                        x > (u64::MAX - (d as u64)) / 10,
                        d <= 9,
                ;
                assert forall|x2: u64, rr: Seq<char>| (rr.len() == 0 || !is_digit(rr[0])) implies v@
                    .subrange(pos as int, v@.len() as int) != dec_digits(x2 as nat) + rr by {
                    if v@.subrange(pos as int, v@.len() as int) == dec_digits(x2 as nat) + rr {
                        lemma_run_forces(v@, pos as int, end as int, x2, rr);
                        let run = v@.subrange(pos as int, end as int);
                        let suf = v@.subrange(i + 1, end as int);
                        assert(run =~= pre + suf);
                        lemma_digits_val_append(pre, suf);
                        lemma_pow10_positive(suf.len());
                        assert(digits_val(pre) * pow10(suf.len()) >= digits_val(pre)) by (
                        nonlinear_arith)
                            requires
                                pow10(suf.len()) >= 1,
                        ;
                        assert(digits_val(run) > u64::MAX);
                    }
                }
            }
            return None;
        }
        x = x * 10 + d as u64;
        proof {
            let pre = v@.subrange(pos as int, i + 1);
            assert(pre.drop_last() =~= v@.subrange(pos as int, i as int));
            assert(pre.last() == v@[i as int]);
        }
        i += 1;
    }
    proof {
        let run = v@.subrange(pos as int, end as int);
        assert(canonical_numeral(run)) by {
            assert(forall|j: int| 0 <= j < run.len() ==> run[j] == v@[pos + j]);
            assert(run[0] == v@[pos as int]);
        }
        lemma_canonical_is_dec_digits(run);
    }
    Some((x, end))
}

/// The tail of an entry's text, with the rest of the text folded in: each
/// piece stands first in its own right-nested concatenation.
proof fn lemma_entry_head(v: Seq<char>, pos: int, k: Seq<char>, ts: Timestamp, rr: Seq<char>)
    requires
        0 <= pos <= v.len(),
        v.subrange(pos, v.len() as int) == render_entry(k, ts) + rr,
    ensures
        pos + 3 <= v.len(),
        v.subrange(pos, pos + 3) == tok_key_open(),
        v.subrange(pos + 3, v.len() as int) == esc(k) + (seq!['"'] + (tok_after_key() + (
        dec_digits(ts.secs as nat) + (tok_nanos() + (dec_digits(ts.nanos as nat) + (tok_nl()
            + rr)))))),
{
    let q = seq!['"'];
    let ta = tok_after_key();
    let ds = dec_digits(ts.secs as nat);
    let tn = tok_nanos();
    let dn = dec_digits(ts.nanos as nat);
    let nl = tok_nl();
    assert((dn + nl) + rr =~= dn + (nl + rr));
    assert((tn + (dn + nl)) + rr =~= tn + ((dn + nl) + rr));
    assert((ds + (tn + (dn + nl))) + rr =~= ds + ((tn + (dn + nl)) + rr));
    assert((ta + (ds + (tn + (dn + nl)))) + rr =~= ta + ((ds + (tn + (dn + nl))) + rr));
    assert((q + (ta + (ds + (tn + (dn + nl))))) + rr =~= q + ((ta + (ds + (tn + (dn + nl))))
        + rr));
    assert((esc(k) + (q + (ta + (ds + (tn + (dn + nl)))))) + rr =~= esc(k) + ((q + (ta + (ds + (tn
        + (dn + nl))))) + rr));
    assert((tok_key_open() + (esc(k) + (q + (ta + (ds + (tn + (dn + nl))))))) + rr
        =~= tok_key_open() + ((esc(k) + (q + (ta + (ds + (tn + (dn + nl)))))) + rr));
    let rest = esc(k) + (q + (ta + (ds + (tn + (dn + (nl + rr))))));
    assert(v.subrange(pos, v.len() as int) == tok_key_open() + rest);
    lemma_prefix_parts(v, pos, tok_key_open(), rest);
}

/// After the scanned key, a hypothetical entry must agree with the scan:
/// same key, and the rest of the text realigns after the closing quote.
proof fn lemma_entry_key(
    v: Seq<char>,
    p1: int,
    p2: int,
    kc: Seq<char>,
    k: Seq<char>,
    rest: Seq<char>,
)
    requires
        0 <= p1 <= p2 <= v.len(),
        v.subrange(p1, p2) == esc(kc) + seq!['"'],
        v.subrange(p1, v.len() as int) == esc(k) + (seq!['"'] + rest),
    ensures
        k == kc,
        v.subrange(p2, v.len() as int) == rest,
{
    let q = seq!['"'];
    let t2tail = v.subrange(p2, v.len() as int);
    assert(v.subrange(p1, v.len() as int) =~= v.subrange(p1, p2) + t2tail);
    assert((esc(kc) + q) + t2tail =~= esc(kc) + (q + t2tail));
    let t1 = q + rest;
    assert(t1[0] == '"');
    lemma_esc_split(k, kc, t1, q + t2tail);
    let k2 = k.skip(kc.len() as int);
    lemma_esc_shape(k2, t1);
    assert(q + t2tail == esc(k2) + t1);
    assert((q + t2tail)[0] == '"');
    if k2.len() > 0 {
        if k2[0] == '"' || k2[0] == '\\' {
            assert((esc(k2) + t1)[0] == '\\');
        } else {
            assert((esc(k2) + t1)[0] != '"');
        }
        assert(false);
    }
    assert(esc(k2) =~= Seq::<char>::empty());
    assert(esc(k2) + t1 =~= t1);
    assert(t2tail =~= (q + t2tail).skip(1));
    assert(rest =~= (q + rest).skip(1));
    assert(k =~= kc) by {
        assert(k.take(kc.len() as int) == kc);
        assert(k.len() == kc.len());
        assert(forall|i: int| 0 <= i < k.len() ==> k.take(kc.len() as int)[i] == k[i]);
    }
}

/// A parsed numeral and a hypothetical numeral at the same place, each
/// closed by a non-digit, denote the same number and leave the same rest.
proof fn lemma_numeral_unique(v: Seq<char>, p: int, p4: int, x: u64, y: u64, rest: Seq<char>)
    requires
        0 <= p <= p4 <= v.len(),
        v.subrange(p, p4) == dec_digits(x as nat),
        p4 == v.len() || !is_digit(v[p4]),
        v.subrange(p, v.len() as int) == dec_digits(y as nat) + rest,
        rest.len() > 0,
        !is_digit(rest[0]),
    ensures
        y == x,
        v.subrange(p4, v.len() as int) == rest,
{
    lemma_dec_digits(x as nat);
    lemma_dec_digits(y as nat);
    let r1 = v.subrange(p4, v.len() as int);
    assert(v.subrange(p, v.len() as int) =~= v.subrange(p, p4) + r1);
    if p4 < v.len() {
        assert(r1[0] == v[p4]);
    }
    lemma_digit_run_unique(dec_digits(x as nat), r1, dec_digits(y as nat), rest);
    assert(digits_val(dec_digits(x as nat)) == x);
    assert(digits_val(dec_digits(y as nat)) == y);
}

/// Read one entry beginning at `pos`: its key, its timestamp, and the
/// position just past its closing line break.
#[verifier::rlimit(80)]
fn parse_entry(v: &Vec<char>, pos: usize) -> (r: Option<((String, Timestamp), usize)>)
    requires
        pos <= v@.len(),
    ensures
        match r {
            Some(p) => {
                &&& pos < p.1 <= v@.len()
                &&& p.0.1.wf()
                &&& v@.subrange(pos as int, p.1 as int) == render_entry(p.0.0@, p.0.1)
            },
            None => forall|k: Seq<char>, ts: Timestamp, rr: Seq<char>|
                ts.wf() ==> v@.subrange(pos as int, v@.len() as int) != render_entry(k, ts) + rr,
        },
{
    let n = v.len();
    let ghost q = seq!['"'];
    let tko = tok_key_open_vec();
    if !expect(v, pos, &tko) {
        proof {
            assert forall|k: Seq<char>, ts: Timestamp, rr: Seq<char>| ts.wf() implies v@.subrange(
                pos as int,
                v@.len() as int,
            ) != render_entry(k, ts) + rr by {
                if v@.subrange(pos as int, v@.len() as int) == render_entry(k, ts) + rr {
                    lemma_entry_head(v@, pos as int, k, ts, rr);
                }
            }
        }
        return None;
    }
    let p1 = pos + 3;
    let r_key = scan_key(v, p1);
    if r_key.is_none() {
        proof {
            assert forall|k: Seq<char>, ts: Timestamp, rr: Seq<char>| ts.wf() implies v@.subrange(
                pos as int,
                v@.len() as int,
            ) != render_entry(k, ts) + rr by {
                if v@.subrange(pos as int, v@.len() as int) == render_entry(k, ts) + rr {
                    lemma_entry_head(v@, pos as int, k, ts, rr);
                }
            }
        }
        return None;
    }
    let (kc, p2) = r_key.unwrap();
    let tak = tok_after_key_vec();
    let ok_tak = expect(v, p2, &tak);
    if !ok_tak {
        proof {
            assert forall|k: Seq<char>, ts: Timestamp, rr: Seq<char>| ts.wf() implies v@.subrange(
                pos as int,
                v@.len() as int,
            ) != render_entry(k, ts) + rr by {
                if v@.subrange(pos as int, v@.len() as int) == render_entry(k, ts) + rr {
                    lemma_entry_head(v@, pos as int, k, ts, rr);
                    let rest = tok_after_key() + (dec_digits(ts.secs as nat) + (tok_nanos() + (
                    dec_digits(ts.nanos as nat) + (tok_nl() + rr))));
                    lemma_entry_key(v@, p1 as int, p2 as int, kc@, k, rest);
                    lemma_prefix_parts(
                        v@,
                        p2 as int,
                        tok_after_key(),
                        dec_digits(ts.secs as nat) + (tok_nanos() + (dec_digits(ts.nanos as nat) + (
                        tok_nl() + rr))),
                    );
                }
            }
        }
        return None;
    }
    let p3 = p2 + 12;
    let r_secs = parse_u64(v, p3);
    if r_secs.is_none() {
        proof {
            assert forall|k: Seq<char>, ts: Timestamp, rr: Seq<char>| ts.wf() implies v@.subrange(
                pos as int,
                v@.len() as int,
            ) != render_entry(k, ts) + rr by {
                if v@.subrange(pos as int, v@.len() as int) == render_entry(k, ts) + rr {
                    lemma_entry_head(v@, pos as int, k, ts, rr);
                    let r3 = tok_nanos() + (dec_digits(ts.nanos as nat) + (tok_nl() + rr));
                    let rest = tok_after_key() + (dec_digits(ts.secs as nat) + r3);
                    lemma_entry_key(v@, p1 as int, p2 as int, kc@, k, rest);
                    lemma_prefix_parts(
                        v@,
                        p2 as int,
                        tok_after_key(),
                        dec_digits(ts.secs as nat) + r3,
                    );
                    assert(r3[0] == '\n');
                }
            }
        }
        return None;
    }
    let (secs, p4) = r_secs.unwrap();
    let tnv = tok_nanos_vec();
    let ok_tn = expect(v, p4, &tnv);
    if !ok_tn {
        proof {
            assert forall|k: Seq<char>, ts: Timestamp, rr: Seq<char>| ts.wf() implies v@.subrange(
                pos as int,
                v@.len() as int,
            ) != render_entry(k, ts) + rr by {
                if v@.subrange(pos as int, v@.len() as int) == render_entry(k, ts) + rr {
                    lemma_entry_head(v@, pos as int, k, ts, rr);
                    let r4 = dec_digits(ts.nanos as nat) + (tok_nl() + rr);
                    let r3 = tok_nanos() + r4;
                    let rest = tok_after_key() + (dec_digits(ts.secs as nat) + r3);
                    lemma_entry_key(v@, p1 as int, p2 as int, kc@, k, rest);
                    lemma_prefix_parts(
                        v@,
                        p2 as int,
                        tok_after_key(),
                        dec_digits(ts.secs as nat) + r3,
                    );
                    assert(r3[0] == '\n');
                    lemma_numeral_unique(v@, p3 as int, p4 as int, secs, ts.secs, r3);
                    lemma_prefix_parts(v@, p4 as int, tok_nanos(), r4);
                }
            }
        }
        return None;
    }
    let p5 = p4 + 12;
    let r_nanos = parse_u64(v, p5);
    if r_nanos.is_none() {
        proof {
            assert forall|k: Seq<char>, ts: Timestamp, rr: Seq<char>| ts.wf() implies v@.subrange(
                pos as int,
                v@.len() as int,
            ) != render_entry(k, ts) + rr by {
                if v@.subrange(pos as int, v@.len() as int) == render_entry(k, ts) + rr {
                    lemma_entry_head(v@, pos as int, k, ts, rr);
                    let r5 = tok_nl() + rr;
                    let r4 = dec_digits(ts.nanos as nat) + r5;
                    let r3 = tok_nanos() + r4;
                    let rest = tok_after_key() + (dec_digits(ts.secs as nat) + r3);
                    lemma_entry_key(v@, p1 as int, p2 as int, kc@, k, rest);
                    lemma_prefix_parts(
                        v@,
                        p2 as int,
                        tok_after_key(),
                        dec_digits(ts.secs as nat) + r3,
                    );
                    assert(r3[0] == '\n');
                    lemma_numeral_unique(v@, p3 as int, p4 as int, secs, ts.secs, r3);
                    lemma_prefix_parts(v@, p4 as int, tok_nanos(), r4);
                    assert(r5[0] == '\n');
                }
            }
        }
        return None;
    }
    let (nv, p6) = r_nanos.unwrap();
    let ok_nl = p6 < n && {
        let c6 = v[p6];
        c6 == '\n'
    };
    if nv >= 1_000_000_000 || !ok_nl {
        proof {
            assert forall|k: Seq<char>, ts: Timestamp, rr: Seq<char>| ts.wf() implies v@.subrange(
                pos as int,
                v@.len() as int,
            ) != render_entry(k, ts) + rr by {
                if v@.subrange(pos as int, v@.len() as int) == render_entry(k, ts) + rr {
                    lemma_entry_head(v@, pos as int, k, ts, rr);
                    let r5 = tok_nl() + rr;
                    let r4 = dec_digits(ts.nanos as nat) + r5;
                    let r3 = tok_nanos() + r4;
                    let rest = tok_after_key() + (dec_digits(ts.secs as nat) + r3);
                    lemma_entry_key(v@, p1 as int, p2 as int, kc@, k, rest);
                    lemma_prefix_parts(
                        v@,
                        p2 as int,
                        tok_after_key(),
                        dec_digits(ts.secs as nat) + r3,
                    );
                    assert(r3[0] == '\n');
                    lemma_numeral_unique(v@, p3 as int, p4 as int, secs, ts.secs, r3);
                    lemma_prefix_parts(v@, p4 as int, tok_nanos(), r4);
                    assert(r5[0] == '\n');
                    lemma_numeral_unique(v@, p5 as int, p6 as int, nv, ts.nanos as u64, r5);
                    assert(nv < 1_000_000_000);
                    assert(v@.subrange(p6 as int, v@.len() as int) == r5);
                    assert(r5[0] == v@[p6 as int]);
                    assert(p6 < n && v@[p6 as int] == '\n');
                }
            }
        }
        return None;
    }
    let end = p6 + 1;
    let ks = string_of_chars(&kc);
    let ts = Timestamp { secs, nanos: nv as u32 };
    proof {
        assert(v@.subrange(p6 as int, end as int) =~= tok_nl());
        assert(v@.subrange(p5 as int, end as int) =~= v@.subrange(p5 as int, p6 as int)
            + v@.subrange(p6 as int, end as int));
        assert(dec_digits(ts.nanos as nat) == dec_digits(nv as nat));
        assert(v@.subrange(p4 as int, end as int) =~= v@.subrange(p4 as int, p5 as int)
            + v@.subrange(p5 as int, end as int));
        assert(v@.subrange(p3 as int, end as int) =~= v@.subrange(p3 as int, p4 as int)
            + v@.subrange(p4 as int, end as int));
        assert(v@.subrange(p2 as int, end as int) =~= v@.subrange(p2 as int, p3 as int)
            + v@.subrange(p3 as int, end as int));
        assert(v@.subrange(p1 as int, end as int) =~= v@.subrange(p1 as int, p2 as int)
            + v@.subrange(p2 as int, end as int));
        assert(v@.subrange(pos as int, end as int) =~= v@.subrange(pos as int, p1 as int)
            + v@.subrange(p1 as int, end as int));
        assert((esc(kc@) + q) + (tok_after_key() + (dec_digits(ts.secs as nat) + (tok_nanos() + (
        dec_digits(ts.nanos as nat) + tok_nl())))) =~= esc(kc@) + (q + (tok_after_key() + (
        dec_digits(ts.secs as nat) + (tok_nanos() + (dec_digits(ts.nanos as nat) + tok_nl()))))));
        assert(v@.subrange(pos as int, end as int) == render_entry(ks@, ts));
    }
    Some(((ks, ts), end))
}

/// The first line of a state with entries, as a vector.
fn tok_header_vec() -> (t: Vec<char>)
    ensures
        t@ == tok_header(),
{
    let mut t: Vec<char> = Vec::new();
    t.push('i');
    t.push('m');
    t.push('a');
    t.push('g');
    t.push('e');
    t.push('s');
    t.push(':');
    t.push('\n');
    proof {
        assert(t@ =~= tok_header());
    }
    t
}

/// The whole text of a state with no entries, as a vector.
fn tok_empty_vec() -> (t: Vec<char>)
    ensures
        t@ == tok_empty(),
{
    let mut t: Vec<char> = Vec::new();
    t.push('i');
    t.push('m');
    t.push('a');
    t.push('g');
    t.push('e');
    t.push('s');
    t.push(':');
    t.push(' ');
    t.push('{');
    t.push('}');
    t.push('\n');
    proof {
        assert(t@ =~= tok_empty());
    }
    t
}

/// The mathematical entries a vector of key/timestamp pairs denotes.
spec fn entries_of(v: Seq<(String, Timestamp)>) -> Seq<(Seq<char>, Timestamp)> {
    v.map(|i: int, e: (String, Timestamp)| (e.0@, e.1))
}

/// One text begins with at most one entry: its key, timestamp and rest are
/// forced.
#[verifier::rlimit(80)]
pub proof fn lemma_entry_det(
    k1: Seq<char>,
    t1: Timestamp,
    r1: Seq<char>,
    k2: Seq<char>,
    t2: Timestamp,
    r2: Seq<char>,
)
    requires
        render_entry(k1, t1) + r1 == render_entry(k2, t2) + r2,
    ensures
        k1 == k2,
        t1 == t2,
        r1 == r2,
{
    let w = render_entry(k1, t1) + r1;
    let q = seq!['"'];
    let ta = tok_after_key();
    let tn = tok_nanos();
    let nl = tok_nl();
    let ds1 = dec_digits(t1.secs as nat);
    let dn1 = dec_digits(t1.nanos as nat);
    let ds2 = dec_digits(t2.secs as nat);
    let dn2 = dec_digits(t2.nanos as nat);
    assert(w.subrange(0, w.len() as int) =~= w);
    lemma_entry_head(w, 0, k1, t1, r1);
    lemma_entry_head(w, 0, k2, t2, r2);
    let rest1 = ta + (ds1 + (tn + (dn1 + (nl + r1))));
    let rest2 = ta + (ds2 + (tn + (dn2 + (nl + r2))));
    lemma_prefix_parts(w, 3, esc(k1), q + rest1);
    let pq: int = 3 + esc(k1).len() as int;
    lemma_prefix_parts(w, pq, q, rest1);
    let p2: int = pq + 1;
    assert(w.subrange(3, p2) =~= esc(k1) + q) by {
        assert(w.subrange(3, p2) =~= w.subrange(3, pq) + w.subrange(pq, p2));
    }
    lemma_entry_key(w, 3, p2, k1, k2, rest2);
    assert(rest1 == rest2);
    lemma_prefix_parts(w, p2, ta, ds1 + (tn + (dn1 + (nl + r1))));
    let p3: int = p2 + 12;
    assert(w.subrange(p3, w.len() as int) == ds1 + (tn + (dn1 + (nl + r1))));
    let r3_1 = tn + (dn1 + (nl + r1));
    let r3_2 = tn + (dn2 + (nl + r2));
    lemma_prefix_parts(w, p3, ds1, r3_1);
    let p4: int = p3 + ds1.len() as int;
    assert(r3_1[0] == '\n');
    assert(w.subrange(p4, w.len() as int) == r3_1);
    assert(w[p4] == '\n');
    assert(rest2 =~= ta + (ds2 + r3_2));
    assert(w.subrange(p3, w.len() as int) == ds2 + r3_2) by {
        lemma_prefix_parts(w, p2, ta, ds2 + r3_2);
    }
    assert(r3_2[0] == '\n');
    lemma_numeral_unique(w, p3, p4, t1.secs, t2.secs, r3_2);
    assert(r3_1 == r3_2);
    lemma_prefix_parts(w, p4, tn, dn1 + (nl + r1));
    let p5: int = p4 + 12;
    lemma_prefix_parts(w, p5, dn1, nl + r1);
    let p6: int = p5 + dn1.len() as int;
    assert((nl + r1)[0] == '\n');
    assert(w[p6] == '\n');
    assert(w.subrange(p5, w.len() as int) == dn2 + (nl + r2)) by {
        lemma_prefix_parts(w, p4, tn, dn2 + (nl + r2));
    }
    assert((nl + r2)[0] == '\n');
    lemma_numeral_unique(w, p5, p6, t1.nanos as u64, t2.nanos as u64, nl + r2);
    assert(t1.nanos == t2.nanos);
    assert(w.subrange(p6, w.len() as int) == nl + r1);
    assert(r1 =~= (nl + r1).skip(1));
    assert(r2 =~= (nl + r2).skip(1));
    assert(r1 == r2);
}

/// Two entry lists with one text are the same list.
pub proof fn lemma_render_entries_injective(
    a: Seq<(Seq<char>, Timestamp)>,
    b: Seq<(Seq<char>, Timestamp)>,
)
    requires
        render_entries(a) == render_entries(b),
    ensures
        a == b,
    decreases a.len(),
{
    lemma_render_entries_empty(a);
    lemma_render_entries_empty(b);
    if a.len() == 0 {
        assert(a =~= b);
    } else {
        assert(render_entries(a) == render_entry(a[0].0, a[0].1) + render_entries(a.drop_first()));
        assert(render_entries(b) == render_entry(b[0].0, b[0].1) + render_entries(b.drop_first()));
        lemma_entry_det(
            a[0].0,
            a[0].1,
            render_entries(a.drop_first()),
            b[0].0,
            b[0].1,
            render_entries(b.drop_first()),
        );
        lemma_render_entries_injective(a.drop_first(), b.drop_first());
        assert(a =~= b) by {
            assert(forall|i: int| 1 <= i < a.len() ==> a[i] == a.drop_first()[i - 1]);
            assert(forall|i: int| 1 <= i < b.len() ==> b[i] == b.drop_first()[i - 1]);
        }
    }
}

/// Two states with one on-disk text are the same state: rendering is
/// injective.
pub proof fn lemma_render_injective(a: Seq<(Seq<char>, Timestamp)>, b: Seq<(Seq<char>, Timestamp)>)
    requires
        render_state(a) == render_state(b),
    ensures
        a == b,
{
    if a.len() == 0 && b.len() == 0 {
        assert(a =~= b);
    } else if a.len() == 0 {
        assert(render_state(a)[7] == ' ');
        assert(render_state(b)[7] == (tok_header() + render_entries(b))[7]);
        assert(render_state(b)[7] == '\n');
    } else if b.len() == 0 {
        assert(render_state(b)[7] == ' ');
        assert(render_state(a)[7] == (tok_header() + render_entries(a))[7]);
        assert(render_state(a)[7] == '\n');
    } else {
        let w = render_state(a);
        assert(w.subrange(0, w.len() as int) =~= w);
        lemma_prefix_parts(w, 0, tok_header(), render_entries(a));
        lemma_prefix_parts(w, 0, tok_header(), render_entries(b));
        lemma_render_entries_injective(a, b);
    }
}

/// Round trip: the text written for any well-formed entry sequence is read
/// back as exactly that sequence, whatever keys and timestamps it holds.
pub proof fn lemma_round_trip(es: Seq<(Seq<char>, Timestamp)>)
    requires
        wf_entries(es),
    ensures
        spec_parse(render_state(es)) == Some(es),
{
    let t = render_state(es);
    assert(wf_entries(es) && render_state(es) == t);
    let e2 = choose|e2: Seq<(Seq<char>, Timestamp)>| wf_entries(e2) && render_state(e2) == t;
    lemma_render_injective(e2, es);
}

/// Saving one state twice writes one content, and a load after either
/// write reads back the same entries.
pub proof fn lemma_save_idempotent(
    es: Seq<(Seq<char>, Timestamp)>,
    t1: Seq<char>,
    t2: Seq<char>,
)
    requires
        wf_entries(es),
        t1 == render_state(es),
        t2 == render_state(es),
    ensures
        t1 == t2,
        spec_parse(t1) == Some(es),
        spec_parse(t2) == Some(es),
{
    lemma_round_trip(es);
}

/// A text that no well-formed entry sequence renders to denotes nothing.
pub proof fn lemma_no_render_no_parse(t: Seq<char>)
    requires
        forall|es: Seq<(Seq<char>, Timestamp)>| wf_entries(es) ==> render_state(es) != t,
    ensures
        spec_parse(t) is None,
{
    if spec_parse(t) is Some {
        let es = choose|es: Seq<(Seq<char>, Timestamp)>| wf_entries(es) && render_state(es) == t;
        assert(render_state(es) != t);
    }
}

/// The empty state round-trips: its text is read back as the empty
/// mapping.
pub proof fn lemma_empty_round_trip()
    ensures
        spec_parse(render_state(Seq::<(Seq<char>, Timestamp)>::empty())) == Some(
            Seq::<(Seq<char>, Timestamp)>::empty(),
        ),
{
    lemma_round_trip(Seq::<(Seq<char>, Timestamp)>::empty());
}

/// Reconstruct a state from its on-disk text. Exactly the texts that
/// `to_text` writes for well-formed states are accepted; any other text —
/// an unknown or missing field, a malformed key or numeral, a duplicate
/// key, extra content — is rejected as a whole.
#[verifier::rlimit(80)]
pub fn parse_text(text: &str) -> (r: Result<State, ParseError>)
    ensures
        match r {
            Ok(s) => s.wf() && render_state(s.entries()) == text@ && spec_parse(text@) == Some(
                s.entries(),
            ),
            Err(e) => (forall|es: Seq<(Seq<char>, Timestamp)>|
                wf_entries(es) ==> render_state(es) != text@) && spec_parse(text@) is None,
        },
{
    let v = chars_of_str(text);
    let n = v.len();
    let tev = tok_empty_vec();
    if expect(&v, 0, &tev) {
        if n == 11 {
            let s = crate::state::initial();
            proof {
                assert(v@.subrange(0, 11) =~= v@);
                assert(render_state(s.entries()) == tok_empty());
                lemma_round_trip(s.entries());
            }
            return Ok(s);
        }
    }
    let thv = tok_header_vec();
    if !expect(&v, 0, &thv) {
        proof {
            assert forall|es: Seq<(Seq<char>, Timestamp)>| wf_entries(es) implies render_state(es)
                != text@ by {
                if render_state(es) == text@ {
                    assert(v@.subrange(0, v@.len() as int) =~= v@);
                    if es.len() == 0 {
                        assert(text@ == tok_empty());
                        assert(v@.subrange(0, 11) =~= tok_empty());
                    } else {
                        lemma_prefix_parts(v@, 0, tok_header(), render_entries(es));
                    }
                }
            }
            lemma_no_render_no_parse(text@);
        }
        return Err(ParseError);
    }
    proof {
        assert(v@.subrange(0, 8)[7] == v@[7]);
    }
    let mut images: Vec<(String, Timestamp)> = Vec::new();
    let mut pos: usize = 8;
    proof {
        assert(entries_of(images@) =~= Seq::<(Seq<char>, Timestamp)>::empty());
        assert(v@.subrange(8, 8) =~= render_entries(entries_of(images@)));
        assert forall|es: Seq<(Seq<char>, Timestamp)>|
            wf_entries(es) && render_state(es) == text@ implies es.len() >= images@.len()
            && es.len() > 0 && es.take(images@.len() as int) == entries_of(images@)
            && render_entries(es.skip(images@.len() as int)) == v@.subrange(
            pos as int,
            n as int,
        ) by {
            assert(v@.subrange(0, v@.len() as int) =~= v@);
            if es.len() == 0 {
                assert(render_state(es) == tok_empty());
                assert(tok_empty()[7] == ' ');
                assert(tok_header()[7] == '\n');
                assert(v@[7] == '\n');
                assert(v@[7] == ' ');
            } else {
                lemma_prefix_parts(v@, 0, tok_header(), render_entries(es));
                assert(es.take(0) =~= entries_of(images@));
                assert(es.skip(0) =~= es);
            }
        }
    }
    while pos < n
        invariant
            8 <= pos <= n,
            n == v@.len(),
            v@ == text@,
            v@.subrange(8, pos as int) == render_entries(entries_of(images@)),
            wf_entries(entries_of(images@)),
            forall|es: Seq<(Seq<char>, Timestamp)>|
                wf_entries(es) && render_state(es) == text@ ==> es.len() >= images@.len()
                    && es.len() > 0 && es.take(images@.len() as int) == entries_of(images@)
                    && render_entries(es.skip(images@.len() as int)) == v@.subrange(
                    pos as int,
                    n as int,
                ),
        decreases n - pos,
    {
        let ghost done = entries_of(images@);
        let ghost cnt = images@.len() as int;
        let r_entry = parse_entry(&v, pos);
        if r_entry.is_none() {
            proof {
                assert forall|es: Seq<(Seq<char>, Timestamp)>| wf_entries(es) implies render_state(
                    es,
                ) != text@ by {
                    if render_state(es) == text@ {
                        let tail = es.skip(cnt);
                        assert(es.len() >= cnt);
                        assert(render_entries(tail) == v@.subrange(pos as int, n as int));
                        lemma_render_entries_empty(tail);
                        assert(tail.len() > 0);
                        assert(es.len() > cnt);
                        assert(render_entries(tail) == render_entry(tail[0].0, tail[0].1)
                            + render_entries(tail.drop_first()));
                        assert(tail[0] == es[cnt + 0]);
                        assert(es[cnt].1.wf());
                    }
                }
                lemma_no_render_no_parse(text@);
            }
            return Err(ParseError);
        }
        let (entry, p2) = r_entry.unwrap();
        let (ks, ts) = entry;
        let m = images.len();
        let mut dup = false;
        let mut j: usize = 0;
        while j < m
            invariant
                j <= m,
                m == images@.len(),
                dup ==> exists|t: int| 0 <= t < m && (#[trigger] images@[t]).0@ == ks@,
                !dup ==> forall|t: int| 0 <= t < j ==> (#[trigger] images@[t]).0@ != ks@,
            decreases m - j,
        {
            if images[j].0.eq(&ks) {
                dup = true;
            }
            j += 1;
        }
        proof {
            assert(v@.subrange(pos as int, n as int) =~= v@.subrange(pos as int, p2 as int)
                + v@.subrange(p2 as int, n as int));
        }
        if dup {
            proof {
                assert forall|es: Seq<(Seq<char>, Timestamp)>| wf_entries(es) implies render_state(
                    es,
                ) != text@ by {
                    if render_state(es) == text@ {
                        let tail = es.skip(cnt);
                        assert(es.len() >= cnt);
                        assert(render_entries(tail) == v@.subrange(pos as int, n as int));
                        lemma_render_entries_empty(tail);
                        assert(tail.len() > 0);
                        assert(es.len() > cnt);
                        assert(render_entries(tail) == render_entry(tail[0].0, tail[0].1)
                            + render_entries(tail.drop_first()));
                        lemma_entry_det(
                            tail[0].0,
                            tail[0].1,
                            render_entries(tail.drop_first()),
                            ks@,
                            ts,
                            v@.subrange(p2 as int, n as int),
                        );
                        assert(es[cnt + 0] == tail[0]);
                        assert(es[cnt].0 == ks@);
                        let t = choose|t: int|
                            0 <= t < images@.len() && (#[trigger] images@[t]).0@ == ks@;
                        assert(es.take(cnt)[t] == entries_of(images@)[t]);
                        assert(es.take(cnt)[t] == es[t]);
                        assert(es[t].0 == ks@);
                        assert(!keys_distinct(es));
                    }
                }
                lemma_no_render_no_parse(text@);
            }
            return Err(ParseError);
        }
        let ghost pos0 = pos as int;
        images.push((ks, ts));
        pos = p2;
        proof {
            assert(entries_of(images@) =~= done.push((ks@, ts)));
            lemma_render_entries_push(done, ks@, ts);
            assert(v@.subrange(8, pos as int) =~= v@.subrange(8, pos0) + v@.subrange(
                pos0,
                pos as int,
            ));
            assert(v@.subrange(8, pos as int) == render_entries(entries_of(images@)));
            assert forall|es: Seq<(Seq<char>, Timestamp)>|
                wf_entries(es) && render_state(es) == text@ implies es.len() >= images@.len()
                && es.len() > 0 && es.take(images@.len() as int) == entries_of(images@)
                && render_entries(es.skip(images@.len() as int)) == v@.subrange(
                pos as int,
                n as int,
            ) by {
                let tail = es.skip(cnt);
                assert(es.len() >= cnt);
                assert(es.take(cnt) == done);
                assert(render_entries(tail) == v@.subrange(pos0, n as int));
                assert(v@.subrange(pos0, n as int) =~= v@.subrange(pos0, p2 as int) + v@.subrange(
                    p2 as int,
                    n as int,
                ));
                lemma_render_entries_empty(tail);
                assert(tail.len() > 0);
                assert(es.len() > cnt);
                assert(render_entries(tail) == render_entry(tail[0].0, tail[0].1) + render_entries(
                    tail.drop_first(),
                ));
                lemma_entry_det(
                    tail[0].0,
                    tail[0].1,
                    render_entries(tail.drop_first()),
                    ks@,
                    ts,
                    v@.subrange(p2 as int, n as int),
                );
                assert(tail[0] == es[cnt + 0]);
                assert(es.take(cnt + 1) =~= done.push((ks@, ts))) by {
                    assert(forall|i: int|
                        0 <= i < cnt ==> es.take(cnt + 1)[i] == #[trigger] es.take(cnt)[i]);
                    assert(es.take(cnt + 1)[cnt] == es[cnt]);
                }
                assert(es.skip(cnt + 1) =~= tail.drop_first());
            }
        }
    }
    if images.len() == 0 {
        proof {
            assert forall|es: Seq<(Seq<char>, Timestamp)>| wf_entries(es) implies render_state(es)
                != text@ by {
                if render_state(es) == text@ {
                    assert(render_entries(es.skip(0)) == v@.subrange(pos as int, n as int));
                    assert(v@.subrange(pos as int, n as int) =~= Seq::<char>::empty());
                    lemma_render_entries_empty(es.skip(0));
                    assert(es.skip(0) =~= es);
                }
            }
            lemma_no_render_no_parse(text@);
        }
        return Err(ParseError);
    }
    let s = State::from_entries(images);
    proof {
        assert(s.entries() =~= entries_of(images@));
        assert(v@.subrange(pos as int, n as int) =~= Seq::<char>::empty());
        assert(text@ =~= v@.subrange(0, 8) + v@.subrange(8, n as int));
        assert(render_state(s.entries()) == tok_header() + render_entries(s.entries()));
        lemma_round_trip(s.entries());
    }
    Ok(s)
}

} // verus!
