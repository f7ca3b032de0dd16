//! The persisted JSON form of a ledger.
//!
//! A ledger is stored as one JSON object mapping each asset name to an
//! object with the holding's two fields, for example
//! `{"Gold":{"inventory":10,"total_cost":110}}`. [`to_json`] writes that
//! form; [`parse_ledger`] reads it back, tolerating whitespace, string
//! escapes, and the two fields in either order, and rejects anything
//! else so a corrupt file can be treated as absent.

use vstd::prelude::*;
use crate::ledger::{Entry, Holding, Ledger, entry_names_nonempty, entry_names_unique};
use crate::text::{chars_of_str, string_from_chars};

verus! {

/// An entry as the codec sees it: the asset name's characters and the holding.
pub type EntryView = (Seq<char>, Holding);

/// The name-and-holding views of a row sequence, in order.
pub open spec fn entry_views(s: Seq<Entry>) -> Seq<EntryView> {
    s.map(|i: int, e: Entry| (e.name@, e.holding))
}

/// How one character of an asset name is written inside a JSON string:
/// quote and backslash get a backslash escape, all else stands as itself.
pub open spec fn esc_char(c: char) -> Seq<char> {
    if c == '"' || c == '\\' {
        seq!['\\', c]
    } else {
        seq![c]
    }
}

/// An asset name's characters as written between the quotes.
pub open spec fn ser_string(s: Seq<char>) -> Seq<char>
    decreases s.len(),
{
    if s.len() == 0 {
        Seq::empty()
    } else {
        esc_char(s.first()) + ser_string(s.drop_first())
    }
}

/// The character for one decimal digit.
pub open spec fn digit_char(d: int) -> char {
    if d == 0 {
        '0'
    } else if d == 1 {
        '1'
    } else if d == 2 {
        '2'
    } else if d == 3 {
        '3'
    } else if d == 4 {
        '4'
    } else if d == 5 {
        '5'
    } else if d == 6 {
        '6'
    } else if d == 7 {
        '7'
    } else if d == 8 {
        '8'
    } else {
        '9'
    }
}

/// A number written in decimal, most significant digit first.
pub open spec fn ser_u64(n: int) -> Seq<char>
    decreases n,
{
    if n < 10 {
        seq![digit_char(n)]
    } else {
        ser_u64(n / 10) + seq![digit_char(n % 10)]
    }
}

/// A holding written as a two-field JSON object.
pub open spec fn ser_holding(h: Holding) -> Seq<char> {
    ("{\"inventory\":")@ + ser_u64(h.quantity as int) + (",\"total_cost\":")@ + ser_u64(
        h.total_cost as int,
    ) + ("}")@
}

/// One entry written as a quoted name, a colon, and the holding object.
pub open spec fn ser_pair(p: EntryView) -> Seq<char> {
    ("\"")@ + ser_string(p.0) + ("\":")@ + ser_holding(p.1)
}

/// The second and later entries, each preceded by a comma.
pub open spec fn ser_rest(ps: Seq<EntryView>) -> Seq<char>
    decreases ps.len(),
{
    if ps.len() == 0 {
        Seq::empty()
    } else {
        (",")@ + ser_pair(ps.first()) + ser_rest(ps.drop_first())
    }
}

/// All entries, comma-separated.
pub open spec fn ser_pairs(ps: Seq<EntryView>) -> Seq<char> {
    if ps.len() == 0 {
        Seq::<char>::empty()
    } else {
        ser_pair(ps.first()) + ser_rest(ps.drop_first())
    }
}

/// A whole ledger: the entries wrapped in one JSON object.
pub open spec fn ser_ledger(s: Seq<Entry>) -> Seq<char> {
    ("{")@ + ser_pairs(entry_views(s)) + ("}")@
}

pub(crate) proof fn lemma_ser_rest_push(ps: Seq<EntryView>, p: EntryView)
    ensures
        ser_rest(ps.push(p)) == ser_rest(ps) + (",")@ + ser_pair(p),
    decreases ps.len(),
{
    if ps.len() == 0 {
        assert(ps.push(p).first() == p);
        assert(ps.push(p).drop_first() =~= Seq::<EntryView>::empty());
        assert(ser_rest(ps.push(p)) == (",")@ + ser_pair(p) + ser_rest(
            ps.push(p).drop_first(),
        ));
        assert(ser_rest(ps.push(p).drop_first()) == Seq::<char>::empty());
        assert(ser_rest(ps) == Seq::<char>::empty());
        assert(ser_rest(ps.push(p)) =~= ser_rest(ps) + (",")@ + ser_pair(p));
    } else {
        assert(ps.push(p).first() == ps.first());
        assert(ps.push(p).drop_first() =~= ps.drop_first().push(p));
        lemma_ser_rest_push(ps.drop_first(), p);
        assert(ser_rest(ps.push(p)) =~= ser_rest(ps) + (",")@ + ser_pair(p));
    }
}

pub(crate) proof fn lemma_ser_pairs_push(ps: Seq<EntryView>, p: EntryView)
    ensures
        ps.len() == 0 ==> ser_pairs(ps.push(p)) == ser_pair(p),
        ps.len() > 0 ==> ser_pairs(ps.push(p)) == ser_pairs(ps) + (",")@ + ser_pair(p),
{
    if ps.len() == 0 {
        assert(ps.push(p).first() == p);
        assert(ps.push(p).drop_first() =~= Seq::<EntryView>::empty());
        assert(ser_pairs(ps.push(p)) =~= ser_pair(p));
    } else {
        assert(ps.push(p).first() == ps.first());
        assert(ps.push(p).drop_first() =~= ps.drop_first().push(p));
        lemma_ser_rest_push(ps.drop_first(), p);
        assert(ser_pairs(ps.push(p)) =~= ser_pairs(ps) + (",")@ + ser_pair(p));
    }
}

pub(crate) proof fn lemma_ser_string_push(s: Seq<char>, c: char)
    ensures
        ser_string(s.push(c)) == ser_string(s) + esc_char(c),
    decreases s.len(),
{
    if s.len() == 0 {
        assert(s.push(c).first() == c);
        assert(s.push(c).drop_first() =~= Seq::<char>::empty());
        assert(ser_string(s.push(c)) == esc_char(c) + ser_string(s.push(c).drop_first()));
        assert(ser_string(s.push(c).drop_first()) == Seq::<char>::empty());
        assert(ser_string(s) == Seq::<char>::empty());
        assert(ser_string(s.push(c)) =~= ser_string(s) + esc_char(c));
    } else {
        assert(s.push(c).first() == s.first());
        assert(s.push(c).drop_first() =~= s.drop_first().push(c));
        lemma_ser_string_push(s.drop_first(), c);
        assert(ser_string(s.push(c)) =~= ser_string(s) + esc_char(c));
    }
}

fn push_str_chars(out: &mut Vec<char>, s: &str)
    ensures
        final(out)@ == old(out)@ + s@,
{
    let mut cs = chars_of_str(s);
    out.append(&mut cs);
}

fn push_digit(out: &mut Vec<char>, d: u64)
    requires
        d < 10,
    ensures
        final(out)@ == old(out)@ + seq![digit_char(d as int)],
{
    let c: char = if d == 0 {
        '0'
    } else if d == 1 {
        '1'
    } else if d == 2 {
        '2'
    } else if d == 3 {
        '3'
    } else if d == 4 {
        '4'
    } else if d == 5 {
        '5'
    } else if d == 6 {
        '6'
    } else if d == 7 {
        '7'
    } else if d == 8 {
        '8'
    } else {
        '9'
    };
    out.push(c);
    proof {
        assert(final(out)@ =~= old(out)@ + seq![digit_char(d as int)]);
    }
}

fn push_u64(out: &mut Vec<char>, n: u64)
    ensures
        final(out)@ == old(out)@ + ser_u64(n as int),
    decreases n,
{
    if n < 10 {
        push_digit(out, n);
    } else {
        push_u64(out, n / 10);
        push_digit(out, n % 10);
        proof {
            assert(final(out)@ =~= old(out)@ + ser_u64(n as int));
        }
    }
}

fn push_escaped(out: &mut Vec<char>, name: &String)
    ensures
        final(out)@ == old(out)@ + ser_string(name@),
{
    let cs = chars_of_str(name.as_str());
    let mut i: usize = 0;
    while i < cs.len()
        invariant
            cs@ == name@,
            i <= cs@.len(),
            out@ == old(out)@ + ser_string(name@.take(i as int)),
        decreases cs@.len() - i,
    {
        let c = cs[i];
        if c == '"' || c == '\\' {
            out.push('\\');
            out.push(c);
        } else {
            out.push(c);
        }
        proof {
            assert(name@.take(i + 1) =~= name@.take(i as int).push(name@[i as int]));
            lemma_ser_string_push(name@.take(i as int), name@[i as int]);
            assert(out@ =~= old(out)@ + ser_string(name@.take(i + 1)));
        }
        i = i + 1;
    }
    proof {
        assert(name@.take(cs@.len() as int) =~= name@);
    }
}

fn push_holding(out: &mut Vec<char>, h: Holding)
    ensures
        final(out)@ == old(out)@ + ser_holding(h),
{
    push_str_chars(out, "{\"inventory\":");
    push_u64(out, h.quantity);
    push_str_chars(out, ",\"total_cost\":");
    push_u64(out, h.total_cost);
    push_str_chars(out, "}");
    proof {
        assert(final(out)@ =~= old(out)@ + ser_holding(h));
    }
}

/// Write a ledger in its persisted JSON form.
pub fn to_json(l: &Ledger) -> (r: String)
    ensures
        r@ == ser_ledger(l.entries_seq()),
{
    let entries = l.entries();
    let ghost views = entry_views(l.entries_seq());
    let mut out: Vec<char> = Vec::new();
    push_str_chars(&mut out, "{");
    let mut i: usize = 0;
    while i < entries.len()
        invariant
            entries@ == l.entries_seq(),
            views == entry_views(l.entries_seq()),
            i <= entries@.len(),
            views.len() == entries@.len(),
            forall|j: int|
                0 <= j < entries@.len() ==> views[j] == (entries@[j].name@, entries@[j].holding),
            out@ == ("{")@ + ser_pairs(views.take(i as int)),
        decreases entries@.len() - i,
    {
        if i > 0 {
            push_str_chars(&mut out, ",");
        }
        push_str_chars(&mut out, "\"");
        push_escaped(&mut out, &entries[i].name);
        push_str_chars(&mut out, "\":");
        push_holding(&mut out, entries[i].holding);
        proof {
            assert(views.take(i + 1) =~= views.take(i as int).push(views[i as int]));
            lemma_ser_pairs_push(views.take(i as int), views[i as int]);
            assert(out@ =~= ("{")@ + ser_pairs(views.take(i + 1)));
        }
        i = i + 1;
    }
    push_str_chars(&mut out, "}");
    proof {
        assert(views.take(views.len() as int) =~= views);
        assert(out@ =~= ser_ledger(l.entries_seq()));
    }
    string_from_chars(&out)
}

/// JSON whitespace.
pub open spec fn is_ws(c: char) -> bool {
    c == ' ' || c == '\n' || c == '\t' || c == '\r'
}

/// The first position at or after `i` holding no whitespace.
pub open spec fn spec_skip_ws(s: Seq<char>, i: int) -> int
    decreases s.len() - i,
{
    if 0 <= i < s.len() && is_ws(s[i]) {
        spec_skip_ws(s, i + 1)
    } else {
        i
    }
}

/// What a backslash escape inside a JSON string stands for.
pub open spec fn unescape(c: char) -> Option<char> {
    if c == '"' {
        Some('"')
    } else if c == '\\' {
        Some('\\')
    } else if c == '/' {
        Some('/')
    } else if c == 'n' {
        Some('\n')
    } else if c == 't' {
        Some('\t')
    } else if c == 'r' {
        Some('\r')
    } else {
        None
    }
}

/// The body of a JSON string from position `i` (just after the opening
/// quote): the characters read so far are `acc`; the result is the full
/// contents and the position just after the closing quote.
pub open spec fn spec_parse_string_body(s: Seq<char>, i: int, acc: Seq<char>) -> Option<
    (Seq<char>, int),
>
    decreases s.len() - i,
{
    if !(0 <= i < s.len()) {
        None
    } else if s[i] == '"' {
        Some((acc, i + 1))
    } else if s[i] == '\\' {
        if i + 1 < s.len() {
            match unescape(s[i + 1]) {
                Option::Some(u) => spec_parse_string_body(s, i + 2, acc.push(u)),
                Option::None => None,
            }
        } else {
            None
        }
    } else {
        spec_parse_string_body(s, i + 1, acc.push(s[i]))
    }
}

/// The run of digits from position `i` folded onto `acc`, and the
/// position just after the run.
pub open spec fn spec_parse_digits(s: Seq<char>, i: int, acc: int) -> (int, int)
    decreases s.len() - i,
{
    if 0 <= i < s.len() && crate::input::is_digit(s[i]) {
        spec_parse_digits(s, i + 1, acc * 10 + crate::input::digit_val(s[i]))
    } else {
        (acc, i)
    }
}

/// A JSON number at position `i`, accepted when it is a plain digit run
/// whose value fits in `u64`.
pub open spec fn spec_parse_u64(s: Seq<char>, i: int) -> Option<(int, int)> {
    if 0 <= i < s.len() && crate::input::is_digit(s[i]) {
        let v = spec_parse_digits(s, i, 0).0;
        if v <= u64::MAX {
            Some((v, spec_parse_digits(s, i, 0).1))
        } else {
            None
        }
    } else {
        None
    }
}

/// A holding from two parsed field keys and values: the keys must be
/// `inventory` and `total_cost`, in either order.
pub open spec fn spec_holding_fields(
    key1: Seq<char>,
    v1: int,
    key2: Seq<char>,
    v2: int,
    end: int,
) -> Option<(Holding, int)> {
    if key1 == ("inventory")@ && key2 == ("total_cost")@ {
        Some((Holding { quantity: v1 as u64, total_cost: v2 as u64 }, end))
    } else if key1 == ("total_cost")@ && key2 == ("inventory")@ {
        Some((Holding { quantity: v2 as u64, total_cost: v1 as u64 }, end))
    } else {
        None
    }
}

/// A holding object at position `i` (at its opening brace): exactly the
/// two known fields, whitespace allowed, and the position just after the
/// closing brace.
pub open spec fn spec_parse_holding(s: Seq<char>, i: int) -> Option<(Holding, int)> {
    if !(0 <= i < s.len() && s[i] == '{') {
        None
    } else {
        let q1 = spec_skip_ws(s, i + 1);
        if !(q1 < s.len() && s[q1] == '"') {
            None
        } else {
            match spec_parse_string_body(s, q1 + 1, Seq::empty()) {
                Option::None => None,
                Option::Some((key1, p1)) => {
                    let c1 = spec_skip_ws(s, p1);
                    if !(c1 < s.len() && s[c1] == ':') {
                        None
                    } else {
                        match spec_parse_u64(s, spec_skip_ws(s, c1 + 1)) {
                            Option::None => None,
                            Option::Some((v1, p2)) => {
                                let m = spec_skip_ws(s, p2);
                                if !(m < s.len() && s[m] == ',') {
                                    None
                                } else {
                                    let q2 = spec_skip_ws(s, m + 1);
                                    if !(q2 < s.len() && s[q2] == '"') {
                                        None
                                    } else {
                                        match spec_parse_string_body(s, q2 + 1, Seq::empty()) {
                                            Option::None => None,
                                            Option::Some((key2, p3)) => {
                                                let c2 = spec_skip_ws(s, p3);
                                                if !(c2 < s.len() && s[c2] == ':') {
                                                    None
                                                } else {
                                                    match spec_parse_u64(
                                                        s,
                                                        spec_skip_ws(s, c2 + 1),
                                                    ) {
                                                        Option::None => None,
                                                        Option::Some((v2, p4)) => {
                                                            let e = spec_skip_ws(s, p4);
                                                            if !(e < s.len() && s[e] == '}') {
                                                                None
                                                            } else {
                                                                spec_holding_fields(
                                                                    key1,
                                                                    v1,
                                                                    key2,
                                                                    v2,
                                                                    e + 1,
                                                                )
                                                            }
                                                        },
                                                    }
                                                }
                                            },
                                        }
                                    }
                                }
                            },
                        }
                    }
                }
            }
        }
    }
}

/// The entry list from position `i` (at the opening quote of the first
/// name): the parsed name-holding pairs and the position of the closing
/// brace of the ledger object. Empty names are rejected.
pub open spec fn spec_parse_entries(s: Seq<char>, i: int) -> Option<(Seq<EntryView>, int)>
    decreases s.len() - i,
{
    if !(0 <= i < s.len() && s[i] == '"') {
        None
    } else {
        match spec_parse_string_body(s, i + 1, Seq::empty()) {
            Option::None => None,
            Option::Some((name, p1)) => {
                if name.len() == 0 {
                    None
                } else {
                    let c = spec_skip_ws(s, p1);
                    if !(c < s.len() && s[c] == ':') {
                        None
                    } else {
                        match spec_parse_holding(s, spec_skip_ws(s, c + 1)) {
                            Option::None => None,
                            Option::Some((h, p2)) => {
                                let d = spec_skip_ws(s, p2);
                                if d < s.len() && s[d] == ',' {
                                    let nxt = spec_skip_ws(s, d + 1);
                                    if i < nxt <= s.len() {
                                        match spec_parse_entries(s, nxt) {
                                            Option::None => None,
                                            Option::Some((ps, e)) => Some(
                                                (seq![(name, h)] + ps, e),
                                            ),
                                        }
                                    } else {
                                        None
                                    }
                                } else if d < s.len() && s[d] == '}' {
                                    Some((seq![(name, h)], d))
                                } else {
                                    None
                                }
                            },
                        }
                    }
                }
            },
        }
    }
}

/// No two parsed entries share a name.
pub open spec fn pair_names_unique(ps: Seq<EntryView>) -> bool {
    forall|a: int, b: int| 0 <= a < b < ps.len() ==> ps[a].0 != ps[b].0
}

/// A whole persisted ledger: one JSON object, nothing but whitespace
/// around it, and no repeated asset name.
pub open spec fn spec_parse_ledger(s: Seq<char>) -> Option<Seq<EntryView>> {
    let i = spec_skip_ws(s, 0);
    if !(i < s.len() && s[i] == '{') {
        None
    } else {
        let j = spec_skip_ws(s, i + 1);
        if j < s.len() && s[j] == '}' {
            if spec_skip_ws(s, j + 1) == s.len() {
                Some(Seq::empty())
            } else {
                None
            }
        } else {
            match spec_parse_entries(s, j) {
                Option::None => None,
                Option::Some((ps, e)) => {
                    if e < s.len() && s[e] == '}' && spec_skip_ws(s, e + 1) == s.len()
                        && pair_names_unique(ps) {
                        Some(ps)
                    } else {
                        None
                    }
                },
            }
        }
    }
}

fn is_ws_char(c: char) -> (r: bool)
    ensures
        r == is_ws(c),
{
    c == ' ' || c == '\n' || c == '\t' || c == '\r'
}

fn skip_ws(cs: &Vec<char>, start: usize) -> (r: usize)
    requires
        start <= cs@.len(),
    ensures
        r == spec_skip_ws(cs@, start as int),
        start <= r <= cs@.len(),
    decreases cs@.len() - start,
{
    let mut i = start;
    while i < cs.len() && is_ws_char(cs[i])
        invariant
            start <= i <= cs@.len(),
            spec_skip_ws(cs@, start as int) == spec_skip_ws(cs@, i as int),
        decreases cs@.len() - i,
    {
        i = i + 1;
    }
    i
}

fn unescape_char(c: char) -> (r: Option<char>)
    ensures
        r == unescape(c),
{
    if c == '"' {
        Some('"')
    } else if c == '\\' {
        Some('\\')
    } else if c == '/' {
        Some('/')
    } else if c == 'n' {
        Some('\n')
    } else if c == 't' {
        Some('\t')
    } else if c == 'r' {
        Some('\r')
    } else {
        None
    }
}

fn parse_string_body(cs: &Vec<char>, start: usize) -> (r: Option<(Vec<char>, usize)>)
    ensures
        match r {
            Some(p) => spec_parse_string_body(cs@, start as int, Seq::empty()) == Some(
                (p.0@, p.1 as int),
            ) && start < p.1 <= cs@.len(),
            None => spec_parse_string_body(cs@, start as int, Seq::empty()) is None,
        },
{
    let mut acc: Vec<char> = Vec::new();
    let mut i = start;
    loop
        invariant
            start <= i,
            spec_parse_string_body(cs@, start as int, Seq::empty()) == spec_parse_string_body(
                cs@,
                i as int,
                acc@,
            ),
        decreases cs@.len() - i,
    {
        if i >= cs.len() {
            return None;
        }
        let c = cs[i];
        if c == '"' {
            return Some((acc, i + 1));
        } else if c == '\\' {
            if i + 1 >= cs.len() {
                return None;
            }
            match unescape_char(cs[i + 1]) {
                Some(u) => {
                    acc.push(u);
                    i = i + 2;
                },
                None => {
                    return None;
                },
            }
        } else {
            acc.push(c);
            i = i + 1;
        }
    }
}

fn parse_u64(cs: &Vec<char>, start: usize) -> (r: Option<(u64, usize)>)
    ensures
        match r {
            Some(p) => spec_parse_u64(cs@, start as int) == Some((p.0 as int, p.1 as int))
                && start < p.1 <= cs@.len(),
            None => spec_parse_u64(cs@, start as int) is None,
        },
{
    if start >= cs.len() {
        return None;
    }
    let c0 = cs[start];
    if c0 < '0' || c0 > '9' {
        return None;
    }
    let mut acc: u64 = 0;
    let mut i = start;
    while i < cs.len() && cs[i] >= '0' && cs[i] <= '9'
        invariant
            start <= i <= cs@.len(),
            spec_parse_digits(cs@, start as int, 0) == spec_parse_digits(
                cs@,
                i as int,
                acc as int,
            ),
        decreases cs@.len() - i,
    {
        let d: u64 = (cs[i] as u32 - '0' as u32) as u64;
        if acc > (u64::MAX - d) / 10 {
            proof {
                assert(acc * 10 + d > u64::MAX) by {
                    vstd::arithmetic::div_mod::lemma_fundamental_div_mod(u64::MAX - d, 10);
                    vstd::arithmetic::div_mod::lemma_mod_bound(u64::MAX - d, 10);
                    vstd::arithmetic::mul::lemma_mul_inequality(
                        (u64::MAX - d) / 10 + 1,
                        acc as int,
                        10,
                    );
                };
                lemma_parse_digits_lower(cs@, i + 1, acc * 10 + d);
            }
            return None;
        }
        proof {
            assert(acc * 10 + d <= u64::MAX) by {
                vstd::arithmetic::div_mod::lemma_fundamental_div_mod(u64::MAX - d, 10);
                vstd::arithmetic::div_mod::lemma_mod_bound(u64::MAX - d, 10);
                vstd::arithmetic::mul::lemma_mul_inequality(
                    acc as int,
                    (u64::MAX - d) / 10,
                    10,
                );
            };
        }
        acc = acc * 10 + d;
        i = i + 1;
    }
    proof {
        lemma_parse_digits_pos(cs@, start as int, 0);
    }
    Some((acc, i))
}

pub(crate) proof fn lemma_parse_digits_lower(s: Seq<char>, i: int, acc: int)
    requires
        0 <= acc,
    ensures
        spec_parse_digits(s, i, acc).0 >= acc,
    decreases s.len() - i,
{
    if 0 <= i < s.len() && crate::input::is_digit(s[i]) {
        lemma_parse_digits_lower(s, i + 1, acc * 10 + crate::input::digit_val(s[i]));
    }
}

pub(crate) proof fn lemma_parse_digits_pos(s: Seq<char>, i: int, acc: int)
    requires
        0 <= i <= s.len(),
    ensures
        i <= spec_parse_digits(s, i, acc).1 <= s.len(),
    decreases s.len() - i,
{
    if 0 <= i < s.len() && crate::input::is_digit(s[i]) {
        lemma_parse_digits_pos(s, i + 1, acc * 10 + crate::input::digit_val(s[i]));
    }
}

fn chars_eq_str(v: &Vec<char>, s: &str) -> (r: bool)
    ensures
        r == (v@ == s@),
{
    let cs = chars_of_str(s);
    if v.len() != cs.len() {
        return false;
    }
    let mut i: usize = 0;
    while i < v.len()
        invariant
            cs@ == s@,
            v@.len() == cs@.len(),
            i <= v@.len(),
            forall|j: int| 0 <= j < i ==> v@[j] == cs@[j],
        decreases v@.len() - i,
    {
        if v[i] != cs[i] {
            return false;
        }
        i = i + 1;
    }
    proof {
        assert(v@ =~= s@);
    }
    true
}

fn parse_holding(cs: &Vec<char>, start: usize) -> (r: Option<(Holding, usize)>)
    ensures
        match r {
            Some(p) => spec_parse_holding(cs@, start as int) == Some((p.0, p.1 as int)) && p.1
                <= cs@.len(),
            None => spec_parse_holding(cs@, start as int) is None,
        },
{
    if start >= cs.len() || cs[start] != '{' {
        return None;
    }
    let q1 = skip_ws(cs, start + 1);
    if q1 >= cs.len() || cs[q1] != '"' {
        return None;
    }
    let (key1, p1) = match parse_string_body(cs, q1 + 1) {
        Some(p) => p,
        None => {
            return None;
        },
    };
    let c1 = skip_ws(cs, p1);
    if c1 >= cs.len() || cs[c1] != ':' {
        return None;
    }
    let v1s = skip_ws(cs, c1 + 1);
    let (v1, p2) = match parse_u64(cs, v1s) {
        Some(p) => p,
        None => {
            return None;
        },
    };
    let m = skip_ws(cs, p2);
    if m >= cs.len() || cs[m] != ',' {
        return None;
    }
    let q2 = skip_ws(cs, m + 1);
    if q2 >= cs.len() || cs[q2] != '"' {
        return None;
    }
    let (key2, p3) = match parse_string_body(cs, q2 + 1) {
        Some(p) => p,
        None => {
            return None;
        },
    };
    let c2 = skip_ws(cs, p3);
    if c2 >= cs.len() || cs[c2] != ':' {
        return None;
    }
    let v2s = skip_ws(cs, c2 + 1);
    let (v2, p4) = match parse_u64(cs, v2s) {
        Some(p) => p,
        None => {
            return None;
        },
    };
    let e = skip_ws(cs, p4);
    if e >= cs.len() || cs[e] != '}' {
        return None;
    }
    if chars_eq_str(&key1, "inventory") && chars_eq_str(&key2, "total_cost") {
        Some((Holding { quantity: v1, total_cost: v2 }, e + 1))
    } else if chars_eq_str(&key1, "total_cost") && chars_eq_str(&key2, "inventory") {
        Some((Holding { quantity: v2, total_cost: v1 }, e + 1))
    } else {
        None
    }
}

/// `r` with `prefix` prepended to its entries, when it parsed at all.
pub open spec fn extend_parse(prefix: Seq<EntryView>, r: Option<(Seq<EntryView>, int)>) -> Option<
    (Seq<EntryView>, int),
> {
    match r {
        Option::Some((ps, e)) => Some((prefix + ps, e)),
        Option::None => None,
    }
}

fn parse_entries(cs: &Vec<char>, start: usize) -> (r: Option<(Vec<Entry>, usize)>)
    ensures
        match r {
            Some(p) => {
                &&& spec_parse_entries(cs@, start as int) == Some(
                    (entry_views(p.0@), p.1 as int),
                )
                &&& p.1 < cs@.len()
                &&& entry_names_nonempty(p.0@)
            },
            None => spec_parse_entries(cs@, start as int) is None,
        },
{
    let mut acc: Vec<Entry> = Vec::new();
    let mut i = start;
    loop
        invariant
            start <= i,
            entry_names_nonempty(acc@),
            spec_parse_entries(cs@, start as int) == extend_parse(
                entry_views(acc@),
                spec_parse_entries(cs@, i as int),
            ),
        decreases cs@.len() - i,
    {
        if i >= cs.len() || cs[i] != '"' {
            return None;
        }
        let (name_chars, p1) = match parse_string_body(cs, i + 1) {
            Some(p) => p,
            None => {
                return None;
            },
        };
        if name_chars.len() == 0 {
            return None;
        }
        let c = skip_ws(cs, p1);
        if c >= cs.len() || cs[c] != ':' {
            return None;
        }
        let hs = skip_ws(cs, c + 1);
        let (h, p2) = match parse_holding(cs, hs) {
            Some(p) => p,
            None => {
                return None;
            },
        };
        let d = skip_ws(cs, p2);
        let ghost name_seq = name_chars@;
        let entry = Entry { name: string_from_chars(&name_chars), holding: h };
        if d < cs.len() {
            let dc = cs[d];
            if dc == ',' {
                let nxt = skip_ws(cs, d + 1);
                if nxt > i {
                    let ghost before = acc@;
                    acc.push(entry);
                    proof {
                        assert(entry_views(acc@) =~= entry_views(before) + seq![(name_seq, h)]);
                        assert(spec_parse_entries(cs@, i as int) == extend_parse(
                            seq![(name_seq, h)],
                            spec_parse_entries(cs@, nxt as int),
                        ));
                        match spec_parse_entries(cs@, nxt as int) {
                            Option::Some((ps, e)) => {
                                assert(entry_views(before) + (seq![(name_seq, h)] + ps)
                                    =~= entry_views(acc@) + ps);
                            },
                            Option::None => {},
                        }
                    }
                    i = nxt;
                    continue ;
                } else {
                    return None;
                }
            } else if dc == '}' {
                let ghost before = acc@;
                acc.push(entry);
                proof {
                    assert(spec_parse_entries(cs@, i as int) == Some(
                        (seq![(name_seq, h)], d as int),
                    ));
                    assert(entry_views(acc@) =~= entry_views(before) + seq![(name_seq, h)]);
                }
                return Some((acc, d));
            } else {
                return None;
            }
        } else {
            return None;
        }
    }
}

fn names_unique(es: &Vec<Entry>) -> (r: bool)
    ensures
        r == pair_names_unique(entry_views(es@)),
{
    let ghost views = entry_views(es@);
    let mut a: usize = 0;
    while a < es.len()
        invariant
            views == entry_views(es@),
            a <= es@.len(),
            forall|x: int, y: int| 0 <= x < y < es@.len() && y < a ==> views[x].0 != views[y].0,
        decreases es@.len() - a,
    {
        let mut b: usize = 0;
        while b < a
            invariant
                views == entry_views(es@),
                b <= a < es@.len(),
                forall|x: int, y: int| 0 <= x < y < es@.len() && y < a ==> views[x].0 != views[y].0,
                forall|x: int| 0 <= x < b ==> views[x].0 != views[a as int].0,
            decreases a - b,
        {
            if es[b].name == es[a].name {
                proof {
                    assert(views[b as int].0 == views[a as int].0);
                }
                return false;
            }
            b = b + 1;
        }
        a = a + 1;
    }
    true
}

/// Read a ledger back from its persisted JSON text. `Some` exactly when
/// the text is one well-formed ledger object; a caller treats `None` as
/// a missing or corrupt file and starts empty.
pub fn parse_ledger(s: &str) -> (r: Option<Ledger>)
    ensures
        match r {
            Some(l) => {
                &&& l.wf()
                &&& spec_parse_ledger(s@) == Some(entry_views(l.entries_seq()))
            },
            None => spec_parse_ledger(s@) is None,
        },
{
    let cs = chars_of_str(s);
    let i = skip_ws(&cs, 0);
    if i >= cs.len() || cs[i] != '{' {
        return None;
    }
    let j = skip_ws(&cs, i + 1);
    if j < cs.len() && cs[j] == '}' {
        if skip_ws(&cs, j + 1) == cs.len() {
            let l = Ledger::new();
            proof {
                assert(entry_views(l.entries_seq()) =~= Seq::<EntryView>::empty());
            }
            return Some(l);
        } else {
            return None;
        }
    }
    let (es, e) = match parse_entries(&cs, j) {
        Some(p) => p,
        None => {
            return None;
        },
    };
    if cs[e] != '}' {
        return None;
    }
    if skip_ws(&cs, e + 1) != cs.len() {
        return None;
    }
    if !names_unique(&es) {
        return None;
    }
    proof {
        assert forall|x: int, y: int| 0 <= x < y < es@.len() implies es@[x].name@
            != es@[y].name@ by {
            assert(entry_views(es@)[x].0 == es@[x].name@);
            assert(entry_views(es@)[y].0 == es@[y].name@);
            assert(entry_views(es@)[x].0 != entry_views(es@)[y].0);
        }
        assert(entry_names_unique(es@));
    }
    let l = Ledger::from_entries(es);
    Some(l)
}

pub(crate) proof fn lemma_ser_string_plain(t: Seq<char>)
    requires
        forall|k: int| 0 <= k < t.len() ==> t[k] != '"' && t[k] != '\\',
    ensures
        ser_string(t) == t,
    decreases t.len(),
{
    if t.len() > 0 {
        assert(t.first() == t[0]);
        assert(forall|k: int| 0 <= k < t.drop_first().len() ==> t.drop_first()[k] == t[k + 1]);
        lemma_ser_string_plain(t.drop_first());
        assert(ser_string(t) == esc_char(t.first()) + ser_string(t.drop_first()));
        assert(seq![t.first()] + t.drop_first() =~= t);
    }
}

pub(crate) proof fn lemma_parse_ser_string(s: Seq<char>, i: int, t: Seq<char>, acc: Seq<char>)
    requires
        0 <= i,
        i + ser_string(t).len() < s.len(),
        s.subrange(i, i + ser_string(t).len()) == ser_string(t),
        s[i + ser_string(t).len()] == '"',
    ensures
        spec_parse_string_body(s, i, acc) == Some((acc + t, i + ser_string(t).len() + 1)),
    decreases t.len(),
{
    let st = ser_string(t);
    let l = st.len() as int;
    assert(forall|k: int| 0 <= k < l ==> s[i + k] == st[k]) by {
        assert(forall|k: int| 0 <= k < l ==> #[trigger] s.subrange(i, i + l)[k] == s[i + k]);
    }
    if t.len() == 0 {
        assert(l == 0);
        assert(s[i] == '"');
        assert(acc + t =~= acc);
    } else {
        let c = t.first();
        let t2 = t.drop_first();
        assert(st == esc_char(c) + ser_string(t2));
        let e: int = esc_char(c).len() as int;
        assert(forall|k: int| 0 <= k < ser_string(t2).len() ==> st[e + k] == ser_string(t2)[k]);
        assert(s.subrange(i + e, i + l) =~= ser_string(t2)) by {
            assert(forall|k: int|
                0 <= k < l - e ==> #[trigger] s.subrange(i + e, i + l)[k] == s[i + e + k]);
        }
        assert(acc.push(c) + t2 =~= acc + t) by {
            assert(seq![c] + t2 =~= t);
        }
        if c == '"' || c == '\\' {
            assert(e == 2);
            assert(st[0] == '\\');
            assert(st[1] == c);
            assert(s[i] == '\\');
            assert(s[i + 1] == c);
            assert(unescape(c) == Some(c));
            lemma_parse_ser_string(s, i + 2, t2, acc.push(c));
            assert(spec_parse_string_body(s, i, acc) == spec_parse_string_body(
                s,
                i + 2,
                acc.push(c),
            ));
        } else {
            assert(e == 1);
            assert(st[0] == c);
            assert(s[i] == c);
            lemma_parse_ser_string(s, i + 1, t2, acc.push(c));
            assert(spec_parse_string_body(s, i, acc) == spec_parse_string_body(
                s,
                i + 1,
                acc.push(c),
            ));
        }
    }
}

/// Ten to the `k`th power.
pub open spec fn pow10(k: nat) -> int
    decreases k,
{
    if k == 0 {
        1
    } else {
        10 * pow10((k - 1) as nat)
    }
}

pub(crate) proof fn lemma_digit_char_val(d: int)
    requires
        0 <= d < 10,
    ensures
        crate::input::is_digit(digit_char(d)),
        crate::input::digit_val(digit_char(d)) == d,
{
}

pub(crate) proof fn lemma_digits_value_msd(t: Seq<char>)
    requires
        t.len() > 0,
    ensures
        crate::input::digits_value(t) == crate::input::digit_val(t.first()) * pow10(
            (t.len() - 1) as nat,
        ) + crate::input::digits_value(t.drop_first()),
    decreases t.len(),
{
    let d0 = crate::input::digit_val(t.first());
    if t.len() == 1 {
        assert(t.drop_last() =~= Seq::<char>::empty());
        assert(t.drop_first() =~= Seq::<char>::empty());
        assert(t.last() == t.first());
        assert(d0 * pow10(0) == d0) by {
            vstd::arithmetic::mul::lemma_mul_basics(d0);
        }
    } else {
        let u = t.drop_last();
        let dl = crate::input::digit_val(t.last());
        lemma_digits_value_msd(u);
        assert(u.first() == t.first());
        assert(t.drop_first().drop_last() =~= u.drop_first());
        assert(t.drop_first().last() == t.last());
        assert(crate::input::digits_value(t.drop_first()) == crate::input::digits_value(
            u.drop_first(),
        ) * 10 + dl);
        let v = crate::input::digits_value(u.drop_first());
        let p = pow10((u.len() - 1) as nat);
        assert(crate::input::digits_value(t) == (d0 * p + v) * 10 + dl);
        assert((d0 * p + v) * 10 == d0 * (p * 10) + v * 10) by (nonlinear_arith);
        assert(pow10((t.len() - 1) as nat) == 10 * p);
        assert(d0 * (p * 10) == d0 * (10 * p)) by (nonlinear_arith);
    }
}

pub(crate) proof fn lemma_parse_digits_run(s: Seq<char>, i: int, j: int, acc: int)
    requires
        0 <= i <= j <= s.len(),
        forall|k: int| i <= k < j ==> crate::input::is_digit(s[k]),
        j == s.len() || !crate::input::is_digit(s[j]),
        0 <= acc,
    ensures
        spec_parse_digits(s, i, acc) == (
            acc * pow10((j - i) as nat) + crate::input::digits_value(s.subrange(i, j)),
            j,
        ),
    decreases j - i,
{
    if i == j {
        assert(s.subrange(i, j) =~= Seq::<char>::empty());
        assert(acc * pow10(0) == acc) by {
            vstd::arithmetic::mul::lemma_mul_basics(acc);
        }
    } else {
        let d = crate::input::digit_val(s[i]);
        assert(0 <= d <= 9);
        lemma_parse_digits_run(s, i + 1, j, acc * 10 + d);
        let m = (j - i - 1) as nat;
        let sub1 = s.subrange(i + 1, j);
        let sub0 = s.subrange(i, j);
        assert(sub0.first() == s[i]);
        assert(sub0.drop_first() =~= sub1);
        assert(sub0.len() > 0);
        lemma_digits_value_msd(sub0);
        assert(crate::input::digits_value(sub0) == d * pow10(m) + crate::input::digits_value(
            sub1,
        ));
        assert((acc * 10 + d) * pow10(m) == acc * (10 * pow10(m)) + d * pow10(m))
            by (nonlinear_arith);
        assert(pow10((j - i) as nat) == 10 * pow10(m));
        assert(acc * (10 * pow10(m)) == acc * pow10((j - i) as nat)) by (nonlinear_arith)
            requires
                pow10((j - i) as nat) == 10 * pow10(m),
        ;
    }
}

pub(crate) proof fn lemma_ser_u64_digits(n: int)
    requires
        0 <= n,
    ensures
        ser_u64(n).len() >= 1,
        forall|k: int| 0 <= k < ser_u64(n).len() ==> #[trigger] crate::input::is_digit(
            ser_u64(n)[k],
        ),
        crate::input::digits_value(ser_u64(n)) == n,
    decreases n,
{
    if n < 10 {
        lemma_digit_char_val(n);
        assert(ser_u64(n) =~= seq![digit_char(n)]);
        assert(ser_u64(n).drop_last() =~= Seq::<char>::empty());
        assert(ser_u64(n).last() == digit_char(n));
        assert(crate::input::digits_value(ser_u64(n).drop_last()) == 0);
        assert(crate::input::digits_value(ser_u64(n)) == 0 * 10 + crate::input::digit_val(
            digit_char(n),
        ));
    } else {
        lemma_ser_u64_digits(n / 10);
        lemma_digit_char_val(n % 10);
        let a = ser_u64(n / 10);
        let w = ser_u64(n);
        assert(w == a + seq![digit_char(n % 10)]);
        assert(w =~= a.push(digit_char(n % 10)));
        assert(w.drop_last() =~= a);
        assert(w.last() == digit_char(n % 10));
        assert(crate::input::digits_value(w) == crate::input::digits_value(a) * 10 + (n % 10));
        vstd::arithmetic::div_mod::lemma_fundamental_div_mod(n, 10);
        assert(forall|k: int|
            0 <= k < w.len() ==> #[trigger] crate::input::is_digit(w[k])) by {
            assert(forall|k: int| 0 <= k < a.len() ==> w[k] == a[k]);
        }
    }
}

pub(crate) proof fn lemma_parse_ser_u64(s: Seq<char>, i: int, n: int)
    requires
        0 <= n <= u64::MAX,
        0 <= i,
        i + ser_u64(n).len() <= s.len(),
        s.subrange(i, i + ser_u64(n).len()) == ser_u64(n),
        i + ser_u64(n).len() == s.len() || !crate::input::is_digit(s[i + ser_u64(n).len()]),
    ensures
        spec_parse_u64(s, i) == Some((n, i + ser_u64(n).len())),
{
    let w = ser_u64(n);
    let l = w.len() as int;
    lemma_ser_u64_digits(n);
    assert(forall|k: int| 0 <= k < l ==> #[trigger] s[i + k] == w[k]) by {
        assert(forall|k: int| 0 <= k < l ==> #[trigger] s.subrange(i, i + l)[k] == s[i + k]);
    }
    assert(forall|k: int| i <= k < i + l ==> #[trigger] crate::input::is_digit(s[k])) by {
        assert(forall|k: int|
            i <= k < i + l ==> #[trigger] s[k] == w[k - i] && crate::input::is_digit(w[k - i]));
    }
    assert(crate::input::is_digit(s[i]));
    lemma_parse_digits_run(s, i, i + l, 0);
    assert(s.subrange(i, i + l) == w);
    assert(0 * pow10(l as nat) == 0) by {
        vstd::arithmetic::mul::lemma_mul_basics(pow10(l as nat));
    }
    assert(spec_parse_digits(s, i, 0).0 == n);
    assert(spec_parse_digits(s, i, 0).1 == i + l);
}

pub(crate) proof fn lemma_seq_at(s: Seq<char>, t: Seq<char>, i: int, j: int)
    requires
        0 <= i,
        i + t.len() <= s.len(),
        s.subrange(i, i + t.len()) == t,
        0 <= j < t.len(),
    ensures
        s[i + j] == t[j],
{
    assert(s.subrange(i, i + t.len())[j] == s[i + j]);
}

pub(crate) proof fn lemma_seq_sub(s: Seq<char>, t: Seq<char>, i: int, lo: int, hi: int)
    requires
        0 <= i,
        i + t.len() <= s.len(),
        s.subrange(i, i + t.len()) == t,
        0 <= lo <= hi <= t.len(),
    ensures
        s.subrange(i + lo, i + hi) == t.subrange(lo, hi),
{
    assert forall|k: int| 0 <= k < hi - lo implies s.subrange(i + lo, i + hi)[k] == t.subrange(
        lo,
        hi,
    )[k] by {
        lemma_seq_at(s, t, i, lo + k);
        assert(s.subrange(i + lo, i + hi)[k] == s[(i + lo) + k]);
        assert((i + lo) + k == i + (lo + k));
        assert(t.subrange(lo, hi)[k] == t[lo + k]);
    }
    assert(s.subrange(i + lo, i + hi) =~= t.subrange(lo, hi));
}

pub(crate) proof fn lemma_parse_ser_holding(s: Seq<char>, i: int, h: Holding)
    requires
        0 <= i,
        i + ser_holding(h).len() <= s.len(),
        s.subrange(i, i + ser_holding(h).len()) == ser_holding(h),
    ensures
        spec_parse_holding(s, i) == Some((h, i + ser_holding(h).len())),
{
    let a = ("{\"inventory\":")@;
    let b = ser_u64(h.quantity as int);
    let c = (",\"total_cost\":")@;
    let d = ser_u64(h.total_cost as int);
    let t = ser_holding(h);
    reveal_strlit("{\"inventory\":");
    reveal_strlit(",\"total_cost\":");
    reveal_strlit("}");
    reveal_strlit("inventory");
    reveal_strlit("total_cost");
    assert(a.len() == 13);
    assert(c.len() == 14);
    lemma_ser_u64_digits(h.quantity as int);
    lemma_ser_u64_digits(h.total_cost as int);
    let lb = b.len() as int;
    let ld = d.len() as int;
    assert(t == a + b + c + d + ("}")@);
    assert(t.len() == 13 + lb + 14 + ld + 1);
    let key1 = ("inventory")@;
    let key2 = ("total_cost")@;
    lemma_ser_string_plain(key1);
    lemma_ser_string_plain(key2);
    assert(key1.len() == 9);
    assert(key2.len() == 10);

    // region views of the serialized holding
    assert(forall|j: int| 0 <= j < 13 ==> #[trigger] t[j] == a[j]);
    assert(forall|j: int| 13 <= j < 13 + lb ==> #[trigger] t[j] == b[j - 13]);
    assert(forall|j: int| 13 + lb <= j < 13 + lb + 14 ==> #[trigger] t[j] == c[j - 13 - lb]);
    assert(forall|j: int|
        13 + lb + 14 <= j < 13 + lb + 14 + ld ==> #[trigger] t[j] == d[j - 13 - lb - 14]);
    assert(t[13 + lb + 14 + ld] == '}');

    // the first key's characters sit inside the literal prefix
    assert(a =~= ("{\"")@ + key1 + ("\":")@) by {
        reveal_strlit("{\"");
        reveal_strlit("\":");
    }
    assert(c =~= (",\"")@ + key2 + ("\":")@) by {
        reveal_strlit(",\"");
        reveal_strlit("\":");
    }
    assert(forall|k: int| 0 <= k < 9 ==> #[trigger] a[2 + k] == key1[k]);
    assert(forall|k: int| 0 <= k < 10 ==> #[trigger] c[2 + k] == key2[k]);

    // opening brace, then the quoted first key with no whitespace before it
    lemma_seq_at(s, t, i, 0);
    assert(s[i] == '{');
    lemma_seq_at(s, t, i, 1);
    assert(s[i + 1] == '"');
    assert(spec_skip_ws(s, i + 1) == i + 1);

    assert(s.subrange(i + 2, i + 11) =~= key1) by {
        lemma_seq_sub(s, t, i, 2, 11);
        assert forall|k: int| 0 <= k < 9 implies t.subrange(2, 11)[k] == key1[k] by {
            assert(t.subrange(2, 11)[k] == t[2 + k]);
            assert(t[2 + k] == a[2 + k]);
        }
        assert(t.subrange(2, 11) =~= key1);
    }
    lemma_seq_at(s, t, i, 11);
    assert(s[i + 11] == '"');
    lemma_parse_ser_string(s, i + 2, key1, Seq::empty());
    assert(Seq::<char>::empty() + key1 =~= key1);
    assert(spec_parse_string_body(s, i + 2, Seq::empty()) == Some((key1, i + 12)));

    // colon, then the first number
    lemma_seq_at(s, t, i, 12);
    assert(s[i + 12] == ':');
    assert(spec_skip_ws(s, i + 12) == i + 12);
    lemma_seq_at(s, t, i, 13);
    assert(s[i + 13] == b[0]);
    assert(spec_skip_ws(s, i + 13) == i + 13);
    let pb = i + 13 + lb;
    assert(s.subrange(i + 13, pb) =~= b) by {
        lemma_seq_sub(s, t, i, 13, 13 + lb);
        assert forall|k: int| 0 <= k < lb implies t.subrange(13, 13 + lb)[k] == b[k] by {
            assert(t.subrange(13, 13 + lb)[k] == t[13 + k]);
        }
        assert(t.subrange(13, 13 + lb) =~= b);
    }
    lemma_seq_at(s, t, i, 13 + lb);
    assert(s[pb] == ',');
    lemma_parse_ser_u64(s, i + 13, h.quantity as int);
    assert(spec_parse_u64(s, i + 13) == Some((h.quantity as int, pb)));

    // comma, then the quoted second key
    assert(spec_skip_ws(s, pb) == pb);
    lemma_seq_at(s, t, i, 13 + lb + 1);
    assert(s[pb + 1] == '"');
    assert(spec_skip_ws(s, pb + 1) == pb + 1);
    assert(s.subrange(pb + 2, pb + 12) =~= key2) by {
        lemma_seq_sub(s, t, i, 13 + lb + 2, 13 + lb + 12);
        assert(i + (13 + lb + 2) == pb + 2);
        assert(i + (13 + lb + 12) == pb + 12);
        assert forall|k: int| 0 <= k < 10 implies t.subrange(13 + lb + 2, 13 + lb + 12)[k]
            == key2[k] by {
            assert(t.subrange(13 + lb + 2, 13 + lb + 12)[k] == t[13 + lb + 2 + k]);
            assert(13 + lb <= 13 + lb + 2 + k < 13 + lb + 14);
            assert(t[13 + lb + 2 + k] == c[2 + k]);
        }
        assert(t.subrange(13 + lb + 2, 13 + lb + 12) =~= key2);
    }
    lemma_seq_at(s, t, i, 13 + lb + 12);
    assert(s[pb + 12] == '"');
    lemma_parse_ser_string(s, pb + 2, key2, Seq::empty());
    assert(Seq::<char>::empty() + key2 =~= key2);
    assert(spec_parse_string_body(s, pb + 2, Seq::empty()) == Some((key2, pb + 13)));

    // colon, then the second number, then the closing brace
    lemma_seq_at(s, t, i, 13 + lb + 13);
    assert(s[pb + 13] == ':');
    assert(spec_skip_ws(s, pb + 13) == pb + 13);
    lemma_seq_at(s, t, i, 13 + lb + 14);
    assert(s[pb + 14] == d[0]);
    assert(spec_skip_ws(s, pb + 14) == pb + 14);
    let pd = pb + 14 + ld;
    assert(s.subrange(pb + 14, pd) =~= d) by {
        lemma_seq_sub(s, t, i, 13 + lb + 14, 13 + lb + 14 + ld);
        assert(i + (13 + lb + 14) == pb + 14);
        assert(i + (13 + lb + 14 + ld) == pd);
        assert forall|k: int| 0 <= k < ld implies t.subrange(
            13 + lb + 14,
            13 + lb + 14 + ld,
        )[k] == d[k] by {
            assert(t.subrange(13 + lb + 14, 13 + lb + 14 + ld)[k] == t[13 + lb + 14 + k]);
        }
        assert(t.subrange(13 + lb + 14, 13 + lb + 14 + ld) =~= d);
    }
    lemma_seq_at(s, t, i, 13 + lb + 14 + ld);
    assert(s[pd] == '}');
    lemma_parse_ser_u64(s, pb + 14, h.total_cost as int);
    assert(spec_parse_u64(s, pb + 14) == Some((h.total_cost as int, pd)));
    assert(spec_skip_ws(s, pd) == pd);

    assert(spec_holding_fields(key1, h.quantity as int, key2, h.total_cost as int, pd + 1)
        == Some((h, pd + 1)));
    assert(pd + 1 == i + t.len());
}

pub(crate) proof fn lemma_ser_rest_pairs(qs: Seq<EntryView>)
    requires
        qs.len() > 0,
    ensures
        ser_rest(qs) == (",")@ + ser_pairs(qs),
{
    assert(ser_rest(qs) =~= (",")@ + ser_pairs(qs));
}

pub(crate) proof fn lemma_parse_ser_entries(s: Seq<char>, i: int, ps: Seq<EntryView>)
    requires
        ps.len() > 0,
        forall|k: int| 0 <= k < ps.len() ==> #[trigger] ps[k].0.len() > 0,
        0 <= i,
        i + ser_pairs(ps).len() < s.len(),
        s.subrange(i, i + ser_pairs(ps).len()) == ser_pairs(ps),
        s[i + ser_pairs(ps).len()] == '}',
    ensures
        spec_parse_entries(s, i) == Some((ps, i + ser_pairs(ps).len())),
    decreases ps.len(),
{
    let p0 = ps.first();
    let name = p0.0;
    let h = p0.1;
    let sp = ser_pairs(ps);
    let pair0 = ser_pair(p0);
    let sn = ser_string(name);
    let sh = ser_holding(h);
    let dp = ps.drop_first();
    reveal_strlit("\"");
    reveal_strlit("\":");
    reveal_strlit(",");
    reveal_strlit("{\"inventory\":");
    let lsn = sn.len() as int;
    let lsh = sh.len() as int;
    let lp = pair0.len() as int;
    assert(pair0 == ("\"")@ + sn + ("\":")@ + sh);
    assert(lp == 1 + lsn + 2 + lsh);
    assert(sp == pair0 + ser_rest(dp));

    // region views of the serialized entry list
    assert(forall|j: int| 0 <= j < lp ==> #[trigger] sp[j] == pair0[j]);
    assert(forall|j: int| lp <= j < sp.len() ==> #[trigger] sp[j] == ser_rest(dp)[j - lp]);
    assert(forall|j: int| 1 <= j < 1 + lsn ==> #[trigger] pair0[j] == sn[j - 1]);
    assert(pair0[0] == '"');
    assert(pair0[1 + lsn] == '"');
    assert(pair0[2 + lsn] == ':');
    assert(forall|j: int| 3 + lsn <= j < lp ==> #[trigger] pair0[j] == sh[j - 3 - lsn]);

    // the quoted name
    lemma_seq_at(s, sp, i, 0);
    assert(s[i] == '"');
    assert(s.subrange(i + 1, i + 1 + lsn) =~= sn) by {
        lemma_seq_sub(s, sp, i, 1, 1 + lsn);
        assert forall|k: int| 0 <= k < lsn implies sp.subrange(1, 1 + lsn)[k] == sn[k] by {
            assert(sp.subrange(1, 1 + lsn)[k] == sp[1 + k]);
            assert(sp[1 + k] == pair0[1 + k]);
        }
        assert(sp.subrange(1, 1 + lsn) =~= sn);
    }
    lemma_seq_at(s, sp, i, 1 + lsn);
    assert(s[i + 1 + lsn] == '"');
    lemma_parse_ser_string(s, i + 1, name, Seq::empty());
    assert(Seq::<char>::empty() + name =~= name);
    let pn = i + 2 + lsn;
    assert(spec_parse_string_body(s, i + 1, Seq::empty()) == Some((name, pn)));
    assert(name.len() > 0) by {
        assert(ps[0].0.len() > 0);
    }

    // the colon, then the holding object
    lemma_seq_at(s, sp, i, 2 + lsn);
    assert(s[pn] == ':');
    assert(spec_skip_ws(s, pn) == pn);
    lemma_seq_at(s, sp, i, 3 + lsn);
    assert(s[pn + 1] == sh[0]);
    assert(sh[0] == '{');
    assert(spec_skip_ws(s, pn + 1) == pn + 1);
    assert(s.subrange(pn + 1, pn + 1 + lsh) =~= sh) by {
        lemma_seq_sub(s, sp, i, 3 + lsn, 3 + lsn + lsh);
        assert(i + (3 + lsn) == pn + 1);
        assert(i + (3 + lsn + lsh) == pn + 1 + lsh);
        assert forall|k: int| 0 <= k < lsh implies sp.subrange(3 + lsn, 3 + lsn + lsh)[k]
            == sh[k] by {
            assert(sp.subrange(3 + lsn, 3 + lsn + lsh)[k] == sp[3 + lsn + k]);
            assert(sp[3 + lsn + k] == pair0[3 + lsn + k]);
        }
        assert(sp.subrange(3 + lsn, 3 + lsn + lsh) =~= sh);
    }
    lemma_parse_ser_holding(s, pn + 1, h);
    let ph = pn + 1 + lsh;
    assert(spec_parse_holding(s, pn + 1) == Some((h, ph)));
    assert(ph == i + lp);

    if dp.len() == 0 {
        assert(sp =~= pair0);
        assert(ph == i + sp.len());
        assert(s[ph] == '}');
        assert(spec_skip_ws(s, ph) == ph);
        assert(seq![(name, h)] =~= ps);
        assert(spec_parse_entries(s, i) == Some((ps, i + sp.len())));
    } else {
        lemma_ser_rest_pairs(dp);
        assert(ser_rest(dp)[0] == ',');
        assert(s[ph] == ',') by {
            lemma_seq_at(s, sp, i, lp);
        }
        assert(spec_skip_ws(s, ph) == ph);
        assert(ser_rest(dp)[1] == ser_pairs(dp)[0]);
        assert(ser_pairs(dp)[0] == ser_pair(dp.first())[0]);
        assert(ser_pair(dp.first()) == ("\"")@ + ser_string(dp.first().0) + ("\":")@
            + ser_holding(dp.first().1));
        assert(ser_pair(dp.first())[0] == '"');
        assert(s[ph + 1] == '"') by {
            lemma_seq_at(s, sp, i, lp + 1);
        }
        assert(spec_skip_ws(s, ph + 1) == ph + 1);
        let nxt = ph + 1;
        assert(i < nxt <= s.len());
        assert(s.subrange(nxt, nxt + ser_pairs(dp).len()) =~= ser_pairs(dp)) by {
            lemma_seq_sub(s, sp, i, lp + 1, sp.len() as int);
            assert(i + (lp + 1) == nxt);
            assert forall|k: int| 0 <= k < ser_pairs(dp).len() implies sp.subrange(
                lp + 1,
                sp.len() as int,
            )[k] == ser_pairs(dp)[k] by {
                assert(sp.subrange(lp + 1, sp.len() as int)[k] == sp[lp + 1 + k]);
                assert(sp[lp + 1 + k] == ser_rest(dp)[1 + k]);
                assert(ser_rest(dp)[1 + k] == ser_pairs(dp)[k]);
            }
            assert(sp.subrange(lp + 1, sp.len() as int) =~= ser_pairs(dp));
        }
        assert(nxt + ser_pairs(dp).len() == i + sp.len());
        assert(forall|k: int| 0 <= k < dp.len() ==> #[trigger] dp[k].0.len() > 0) by {
            assert(forall|k: int| 0 <= k < dp.len() ==> dp[k] == ps[k + 1]);
        }
        lemma_parse_ser_entries(s, nxt, dp);
        assert(spec_parse_entries(s, nxt) == Some((dp, i + sp.len())));
        assert(seq![(name, h)] + dp =~= ps);
        assert(spec_parse_entries(s, i) == Some((ps, i + sp.len())));
    }
}

/// Writing a ledger with [`to_json`] and reading the text back with
/// [`parse_ledger`] yields exactly the rows that were written: the
/// persisted form loses nothing. Stated over the serialized text of any
/// well-formed row sequence.
pub proof fn lemma_save_load_round_trip(entries: Seq<Entry>)
    requires
        entry_names_unique(entries),
        entry_names_nonempty(entries),
    ensures
        spec_parse_ledger(ser_ledger(entries)) == Some(entry_views(entries)),
{
    let vs = entry_views(entries);
    let sp = ser_pairs(vs);
    let s = ser_ledger(entries);
    reveal_strlit("{");
    reveal_strlit("}");
    reveal_strlit("\"");
    assert(s == ("{")@ + sp + ("}")@);
    assert(s.len() == sp.len() + 2);
    assert(s[0] == '{');
    assert(spec_skip_ws(s, 0) == 0);
    if entries.len() == 0 {
        assert(vs =~= Seq::<EntryView>::empty());
        assert(sp.len() == 0);
        assert(s[1] == '}');
        assert(spec_skip_ws(s, 1) == 1);
        assert(spec_skip_ws(s, 2) == 2);
        assert(spec_parse_ledger(s) == Some(vs));
    } else {
        assert(vs.len() == entries.len());
        assert(forall|k: int|
            0 <= k < vs.len() ==> #[trigger] vs[k] == (entries[k].name@, entries[k].holding));
        assert(forall|j: int| 1 <= j < 1 + sp.len() ==> #[trigger] s[j] == sp[j - 1]);
        assert(sp[0] == ser_pair(vs.first())[0]);
        assert(ser_pair(vs.first()) == ("\"")@ + ser_string(vs.first().0) + ("\":")@
            + ser_holding(vs.first().1)) by {
            reveal_strlit("\":");
        }
        assert(ser_pair(vs.first())[0] == '"');
        assert(s[1] == '"');
        assert(spec_skip_ws(s, 1) == 1);
        assert(s.subrange(1, 1 + sp.len() as int) =~= sp);
        assert(s[1 + sp.len() as int] == '}');
        assert(forall|k: int| 0 <= k < vs.len() ==> #[trigger] vs[k].0.len() > 0) by {
            assert(forall|k: int|
                0 <= k < vs.len() ==> vs[k].0 == entries[k].name@ && entries[k].name@.len()
                    > 0);
        }
        lemma_parse_ser_entries(s, 1, vs);
        let e = 1 + sp.len() as int;
        assert(spec_parse_entries(s, 1) == Some((vs, e)));
        assert(s[e] == '}');
        assert(spec_skip_ws(s, e + 1) == e + 1);
        assert(e + 1 == s.len());
        assert(pair_names_unique(vs)) by {
            assert forall|a: int, b: int| 0 <= a < b < vs.len() implies vs[a].0 != vs[b].0 by {
                assert(vs[a].0 == entries[a].name@);
                assert(vs[b].0 == entries[b].name@);
            }
        }
        assert(spec_parse_ledger(s) == Some(vs));
    }
}

/// Two row sequences with the same names and holdings denote the same
/// mapping: with [`lemma_save_load_round_trip`], a reloaded ledger maps
/// every asset to the holding that was saved.
pub proof fn lemma_same_views_same_map(s1: Seq<Entry>, s2: Seq<Entry>)
    requires
        entry_views(s1) == entry_views(s2),
    ensures
        crate::ledger::map_of(s1) == crate::ledger::map_of(s2),
    decreases s1.len(),
{
    assert(entry_views(s1).len() == s1.len());
    assert(entry_views(s2).len() == s2.len());
    if s1.len() > 0 {
        assert(entry_views(s1.drop_last()) =~= entry_views(s2.drop_last())) by {
            assert(forall|k: int|
                0 <= k < s1.len() - 1 ==> #[trigger] entry_views(s1.drop_last())[k]
                    == entry_views(s1)[k]);
            assert(forall|k: int|
                0 <= k < s2.len() - 1 ==> #[trigger] entry_views(s2.drop_last())[k]
                    == entry_views(s2)[k]);
        }
        lemma_same_views_same_map(s1.drop_last(), s2.drop_last());
        let n = s1.len() - 1;
        assert(entry_views(s1)[n] == (s1.last().name@, s1.last().holding));
        assert(entry_views(s2)[n] == (s2.last().name@, s2.last().holding));
        assert(s1.last().name@ == s2.last().name@);
        assert(s1.last().holding == s2.last().holding);
    } else {
        assert(s2.len() == 0);
    }
}

} // verus!
