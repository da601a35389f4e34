//! Badge records and the badge-list decoder: a badge-list body is a
//! comma-separated sequence of `name/level` entries; an unrecognized name,
//! a malformed level or a missing separator fails the whole list.

use vstd::prelude::*;

use crate::text::find_char;
use crate::text::find_char_in;
use crate::text::split_at_char;
use crate::text::split_char;
use crate::text::starts_with;
use crate::text::str_eq;
use crate::text::str_starts_with;
use crate::text::views_of;

verus! {

/// The closed set of recognized badge kinds.
#[derive(Debug, PartialEq, Eq, Structural, Clone, Copy)]
pub enum BadgeType {
    Moderator,
    Subscriber,
    Turbo,
}

/// One decoded badge entry: a kind and its numeric level.
#[derive(Debug, PartialEq, Eq, Structural, Clone, Copy)]
pub struct Badge {
    pub name: BadgeType,
    pub variant: u8,
}

/// Why decoding a badge list failed; each failure is fatal for the list.
#[derive(Debug, PartialEq, Eq, Structural, Clone, Copy)]
pub enum ParseError {
    /// A badge entry's name is not in the closed `BadgeType` set.
    MalformedBadgeName,
    /// A badge entry's level is empty, non-numeric, or above 255.
    MalformedBadgeLevel,
    /// A badge entry has no `/` separator at all.
    MalformedBadgeEntry,
}

/// The badge kind a name denotes, if any (case-sensitive, exact).
pub open spec fn badge_name_of(s: Seq<char>) -> Option<BadgeType> {
    if s == "moderator"@ {
        Some(BadgeType::Moderator)
    } else if s == "subscriber"@ {
        Some(BadgeType::Subscriber)
    } else if s == "turbo"@ {
        Some(BadgeType::Turbo)
    } else {
        None
    }
}

/// `badge_name_of`, with the unrecognized case as the error it raises.
pub open spec fn badge_name_res(s: Seq<char>) -> Result<BadgeType, ParseError> {
    match badge_name_of(s) {
        Some(k) => Ok(k),
        None => Err(ParseError::MalformedBadgeName),
    }
}

impl BadgeType {
    /// Parses a badge name against the closed enumeration.
    pub fn from_str(s: &str) -> (r: Result<BadgeType, ParseError>)
        ensures
            r == badge_name_res(s@),
    {
        if str_eq(s, "moderator") {
            Ok(BadgeType::Moderator)
        } else if str_eq(s, "subscriber") {
            Ok(BadgeType::Subscriber)
        } else if str_eq(s, "turbo") {
            Ok(BadgeType::Turbo)
        } else {
            Err(ParseError::MalformedBadgeName)
        }
    }
}

pub open spec fn is_digit_char(c: char) -> bool {
    0x30 <= c as u32 && c as u32 <= 0x39
}

pub open spec fn digit_val(c: char) -> int {
    c as u32 - 0x30
}

pub open spec fn all_digits(s: Seq<char>) -> bool {
    forall|i: int| 0 <= i < s.len() ==> is_digit_char(s[i])
}

/// The number the digit string denotes, most significant digit first.
pub open spec fn digits_val(s: Seq<char>) -> int
    decreases s.len(),
{
    if s.len() == 0 {
        0
    } else {
        digits_val(s.drop_last()) * 10 + digit_val(s.last())
    }
}

/// The level a variant string denotes: a non-empty all-digit string whose
/// value fits in a `u8`; anything else is rejected.
pub open spec fn u8_of_digits(s: Seq<char>) -> Option<u8> {
    if s.len() > 0 && all_digits(s) && digits_val(s) <= 255 {
        Some(digits_val(s) as u8)
    } else {
        None
    }
}

pub proof fn lemma_digits_val_nonneg(s: Seq<char>)
    requires
        all_digits(s),
    ensures
        digits_val(s) >= 0,
    decreases s.len(),
{
    if s.len() > 0 {
        assert(all_digits(s.drop_last()));
        lemma_digits_val_nonneg(s.drop_last());
        assert(is_digit_char(s[s.len() - 1]));
        assert(s.last() == s[s.len() - 1]);
        assert(digit_val(s.last()) >= 0);
    }
}

/// A digit string's value never falls below the value of any of its prefixes.
pub proof fn lemma_digits_val_mono(s: Seq<char>, j: int)
    requires
        all_digits(s),
        0 <= j <= s.len(),
    ensures
        digits_val(s.take(j)) <= digits_val(s),
    decreases s.len() - j,
{
    if j == s.len() {
        assert(s.take(j) =~= s);
    } else {
        assert(s.take(j + 1).drop_last() =~= s.take(j));
        assert(s.take(j + 1).last() == s[j]);
        assert(all_digits(s.take(j)));
        lemma_digits_val_nonneg(s.take(j));
        assert(is_digit_char(s[j]));
        assert(digit_val(s[j]) >= 0);
        assert(digits_val(s.take(j)) <= digits_val(s.take(j + 1)));
        lemma_digits_val_mono(s, j + 1);
    }
}

/// Parses a decimal level in [0, 255]; `None` on empty, non-digit or
/// out-of-range input.
pub fn parse_u8(s: &str) -> (r: Option<u8>)
    ensures
        r == u8_of_digits(s@),
{
    let n = s.unicode_len();
    if n == 0 {
        return None;
    }
    let mut val: u16 = 0;
    let mut j: usize = 0;
    proof {
        assert(s@.take(0) =~= Seq::<char>::empty());
    }
    while j < n
        invariant
            0 <= j <= n,
            n == s@.len(),
            n > 0,
            all_digits(s@.take(j as int)),
            val as int == digits_val(s@.take(j as int)),
            val <= 255,
        decreases n - j,
    {
        let c = s.get_char(j);
        let u = c as u32;
        if u < 0x30 || u > 0x39 {
            assert(!is_digit_char(s@[j as int]));
            return None;
        }
        let d = (u - 0x30) as u16;
        proof {
            assert(s@.take(j as int + 1).drop_last() =~= s@.take(j as int));
            assert(s@.take(j as int + 1).last() == s@[j as int]);
        }
        val = val * 10 + d;
        j += 1;
        if val > 255 {
            proof {
                if all_digits(s@) {
                    lemma_digits_val_mono(s@, j as int);
                }
            }
            return None;
        }
    }
    proof {
        assert(s@.take(n as int) =~= s@);
    }
    Some(val as u8)
}

/// Decodes one `name/level` entry: the name is what stands before the first
/// `/`, the level what stands between the first and the second `/` (or the
/// end); material after a second `/` is ignored.
pub open spec fn decode_entry(e: Seq<char>) -> Result<Badge, ParseError> {
    let i = find_char(e, '/') as int;
    if i >= e.len() {
        Err(ParseError::MalformedBadgeEntry)
    } else {
        let name = e.take(i);
        let rest = e.skip(i + 1);
        let var_str = rest.take(find_char(rest, '/') as int);
        match badge_name_of(name) {
            None => Err(ParseError::MalformedBadgeName),
            Some(k) => match u8_of_digits(var_str) {
                None => Err(ParseError::MalformedBadgeLevel),
                Some(v) => Ok(Badge { name: k, variant: v }),
            },
        }
    }
}

/// Decodes entries in order; an entry starting with `color=` stops decoding
/// and discards the remainder, and any malformed entry fails the whole list.
pub open spec fn decode_entries(entries: Seq<Seq<char>>) -> Result<Seq<Badge>, ParseError>
    decreases entries.len(),
{
    if entries.len() == 0 {
        Ok(Seq::empty())
    } else if starts_with(entries[0], "color="@) {
        Ok(Seq::empty())
    } else {
        match decode_entry(entries[0]) {
            Err(e) => Err(e),
            Ok(b) => match decode_entries(entries.drop_first()) {
                Err(e) => Err(e),
                Ok(rest) => Ok(seq![b] + rest),
            },
        }
    }
}

/// Decoding a whole badge-list body: an empty body is an empty list, not an
/// error; otherwise the comma-separated entries are decoded in order.
pub open spec fn decode_of(body: Seq<char>) -> Result<Seq<Badge>, ParseError> {
    if body.len() == 0 {
        Ok(Seq::empty())
    } else {
        decode_entries(split_char(body, ','))
    }
}

/// Decodes a badge-list body into badges, in order of appearance; returns
/// exactly what `decode_of` says, erring on the first malformed entry with
/// no partial result.
pub fn decode_badges(body: &str) -> (r: Result<Vec<Badge>, ParseError>)
    ensures
        (match r {
            Ok(v) => decode_of(body@) == Ok::<Seq<Badge>, ParseError>(v@),
            Err(e) => decode_of(body@) == Err::<Seq<Badge>, ParseError>(e),
        }),
{
    let n = body.unicode_len();
    if n == 0 {
        return Ok(Vec::new());
    }
    let entries = split_at_char(body, ',');
    let ghost evs = views_of(entries@);
    let mut out: Vec<Badge> = Vec::new();
    let mut idx: usize = 0;
    proof {
        assert(evs.skip(0) =~= evs);
        assert(forall|r: Seq<Badge>| Seq::<Badge>::empty() + r =~= r);
    }
    while idx < entries.len()
        invariant
            0 <= idx <= entries.len(),
            evs == views_of(entries@),
            n > 0,
            n == body@.len(),
            evs == split_char(body@, ','),
            decode_entries(evs) == (match decode_entries(evs.skip(idx as int)) {
                Ok(rest) => Ok::<Seq<Badge>, ParseError>(out@ + rest),
                Err(e) => Err::<Seq<Badge>, ParseError>(e),
            }),
        decreases entries.len() - idx,
    {
        let entry: &String = &entries[idx];
        proof {
            assert(evs.skip(idx as int)[0] == evs[idx as int]);
            assert(evs[idx as int] == entry@);
            assert(evs.skip(idx as int).drop_first() =~= evs.skip(idx as int + 1));
        }
        if str_starts_with(entry.as_str(), "color=") {
            proof {
                assert(decode_entries(evs.skip(idx as int)) == Ok::<Seq<Badge>, ParseError>(
                    Seq::empty(),
                ));
                assert(out@ + Seq::<Badge>::empty() =~= out@);
            }
            return Ok(out);
        }
        let elen = entry.as_str().unicode_len();
        let slash = find_char_in(entry.as_str(), '/');
        if slash >= elen {
            return Err(ParseError::MalformedBadgeEntry);
        }
        let name = entry.as_str().substring_char(0, slash);
        let rest = entry.as_str().substring_char(slash + 1, elen);
        let slash2 = find_char_in(rest, '/');
        let var_str = rest.substring_char(0, slash2);
        proof {
            assert(name@ =~= entry@.take(slash as int));
            assert(rest@ =~= entry@.skip(slash as int + 1));
            assert(var_str@ =~= rest@.take(find_char(rest@, '/') as int));
        }
        let kind = match BadgeType::from_str(name) {
            Ok(k) => k,
            Err(e) => {
                return Err(e);
            },
        };
        let variant = match parse_u8(var_str) {
            Some(v) => v,
            None => {
                return Err(ParseError::MalformedBadgeLevel);
            },
        };
        let b = Badge { name: kind, variant };
        proof {
            assert(decode_entry(entry@) == Ok::<Badge, ParseError>(b));
            assert(forall|r: Seq<Badge>|
                out@ + (seq![b] + r) =~= (out@ + seq![b]) + r);
            assert(out@.push(b) =~= out@ + seq![b]);
        }
        out.push(b);
        idx += 1;
    }
    proof {
        assert(evs.skip(entries@.len() as int) =~= Seq::<Seq<char>>::empty());
        assert(out@ + Seq::<Badge>::empty() =~= out@);
    }
    Ok(out)
}

/// The canonical spelling of a badge kind.
pub open spec fn kind_name(k: BadgeType) -> Seq<char> {
    match k {
        BadgeType::Moderator => "moderator"@,
        BadgeType::Subscriber => "subscriber"@,
        BadgeType::Turbo => "turbo"@,
    }
}

pub open spec fn digit_char(d: int) -> char {
    ((d + 0x30) as u8) as char
}

/// The canonical decimal spelling of a non-negative number, no leading zero.
pub open spec fn digits_of(n: int) -> Seq<char>
    decreases n,
{
    if n < 10 {
        seq![digit_char(n)]
    } else {
        digits_of(n / 10).push(digit_char(n % 10))
    }
}

/// The canonical `name/level` spelling of one badge.
pub open spec fn encode_entry(b: Badge) -> Seq<char> {
    kind_name(b.name) + seq!['/'] + digits_of(b.variant as int)
}

/// A badge list re-encoded as its badge-list body: entries joined by commas.
pub open spec fn encode_of(bs: Seq<Badge>) -> Seq<char>
    decreases bs.len(),
{
    if bs.len() == 0 {
        Seq::empty()
    } else if bs.len() == 1 {
        encode_entry(bs[0])
    } else {
        encode_entry(bs[0]) + seq![','] + encode_of(bs.drop_first())
    }
}

pub open spec fn encoded_entries(bs: Seq<Badge>) -> Seq<Seq<char>> {
    bs.map_values(|b: Badge| encode_entry(b))
}

proof fn lemma_kind_name_ok(k: BadgeType)
    ensures
        badge_name_of(kind_name(k)) == Some(k),
        kind_name(k).len() > 0,
        kind_name(k)[0] != 'c',
        forall|i: int| 0 <= i < kind_name(k).len() ==> kind_name(k)[i] != '/',
        forall|i: int| 0 <= i < kind_name(k).len() ==> kind_name(k)[i] != ',',
{
    reveal_strlit("moderator");
    reveal_strlit("subscriber");
    reveal_strlit("turbo");
    assert("moderator"@.len() == 9);
    assert("subscriber"@.len() == 10);
    assert("turbo"@.len() == 5);
}

proof fn lemma_digits_of_props(n: int)
    requires
        0 <= n,
    ensures
        all_digits(digits_of(n)),
        digits_of(n).len() >= 1,
        digits_val(digits_of(n)) == n,
    decreases n,
{
    if n < 10 {
        let s = digits_of(n);
        assert(s == seq![digit_char(n)]);
        assert(digit_char(n) as u32 == n + 0x30);
        assert(s.drop_last() =~= Seq::<char>::empty());
        assert(s.last() == digit_char(n));
        assert(digits_val(Seq::<char>::empty()) == 0);
        assert(digits_val(s) == digit_val(digit_char(n)));
    } else {
        lemma_digits_of_props(n / 10);
        let p = digits_of(n / 10);
        let s = digits_of(n);
        assert(digit_char(n % 10) as u32 == n % 10 + 0x30);
        assert(s.drop_last() =~= p);
        assert(s.last() == digit_char(n % 10));
        assert(digits_val(s) == digits_val(p) * 10 + digit_val(digit_char(n % 10)));
        assert(forall|i: int| 0 <= i < p.len() ==> s[i] == p[i]);
    }
}

proof fn lemma_decode_entry_encoded(b: Badge)
    ensures
        decode_entry(encode_entry(b)) == Ok::<Badge, ParseError>(b),
{
    let name = kind_name(b.name);
    let digs = digits_of(b.variant as int);
    let e = encode_entry(b);
    lemma_kind_name_ok(b.name);
    lemma_digits_of_props(b.variant as int);
    assert forall|i: int| 0 <= i < name.len() implies e[i] != '/' by {
        assert(e[i] == name[i]);
    }
    assert(e[name.len() as int] == '/');
    crate::text::lemma_find_char_at(e, '/', name.len() as int);
    assert(e.take(name.len() as int) =~= name);
    let rest = e.skip(name.len() as int + 1);
    assert(rest =~= digs);
    assert forall|i: int| 0 <= i < digs.len() implies digs[i] != '/' by {
        assert(is_digit_char(digs[i]));
    }
    crate::text::lemma_find_char_at(digs, '/', digs.len() as int);
    assert(digs.take(digs.len() as int) =~= digs);
    assert(u8_of_digits(digs) == Some(b.variant));
}

proof fn lemma_encode_entry_no_comma(b: Badge)
    ensures
        forall|i: int| 0 <= i < encode_entry(b).len() ==> encode_entry(b)[i] != ',',
{
    let name = kind_name(b.name);
    let digs = digits_of(b.variant as int);
    let e = encode_entry(b);
    lemma_kind_name_ok(b.name);
    lemma_digits_of_props(b.variant as int);
    assert forall|i: int| 0 <= i < e.len() implies e[i] != ',' by {
        if i < name.len() {
            assert(e[i] == name[i]);
        } else if i == name.len() {
            assert(e[i] == '/');
        } else {
            assert(e[i] == digs[i - name.len() - 1]);
            assert(is_digit_char(e[i]));
        }
    }
}

proof fn lemma_split_encoded(bs: Seq<Badge>)
    requires
        bs.len() > 0,
    ensures
        split_char(encode_of(bs), ',') == encoded_entries(bs),
    decreases bs.len(),
{
    let s = encode_of(bs);
    let e0 = encode_entry(bs[0]);
    lemma_encode_entry_no_comma(bs[0]);
    if bs.len() == 1 {
        crate::text::lemma_find_char_at(s, ',', s.len() as int);
        assert(split_char(s, ',') == seq![s]);
        assert(encoded_entries(bs) =~= seq![e0]);
    } else {
        let rest = encode_of(bs.drop_first());
        assert(s == e0 + seq![','] + rest);
        assert forall|i: int| 0 <= i < e0.len() implies s[i] != ',' by {
            assert(s[i] == e0[i]);
        }
        assert(s[e0.len() as int] == ',');
        crate::text::lemma_find_char_at(s, ',', e0.len() as int);
        assert(s.take(e0.len() as int) =~= e0);
        assert(s.skip(e0.len() as int + 1) =~= rest);
        lemma_split_encoded(bs.drop_first());
        assert(split_char(s, ',') == seq![e0] + encoded_entries(bs.drop_first()));
        assert(seq![e0] + encoded_entries(bs.drop_first()) =~= encoded_entries(bs));
    }
}

proof fn lemma_decode_entries_encoded(bs: Seq<Badge>)
    ensures
        decode_entries(encoded_entries(bs)) == Ok::<Seq<Badge>, ParseError>(bs),
    decreases bs.len(),
{
    let es = encoded_entries(bs);
    if bs.len() == 0 {
        assert(es =~= Seq::<Seq<char>>::empty());
        assert(bs =~= Seq::<Badge>::empty());
    } else {
        let e0 = es[0];
        assert(e0 == encode_entry(bs[0]));
        lemma_kind_name_ok(bs[0].name);
        reveal_strlit("color=");
        if starts_with(e0, "color="@) {
            assert(e0.take("color="@.len() as int)[0] == e0[0]);
            assert(e0[0] == kind_name(bs[0].name)[0]);
            assert("color="@[0] == 'c');
            assert(false);
        }
        lemma_decode_entry_encoded(bs[0]);
        assert(es.drop_first() =~= encoded_entries(bs.drop_first()));
        lemma_decode_entries_encoded(bs.drop_first());
        assert(seq![bs[0]] + bs.drop_first() =~= bs);
    }
}

fn kind_name_str(k: BadgeType) -> (r: &'static str)
    ensures
        r@ == kind_name(k),
{
    match k {
        BadgeType::Moderator => "moderator",
        BadgeType::Subscriber => "subscriber",
        BadgeType::Turbo => "turbo",
    }
}

fn digit_str(d: u8) -> (r: &'static str)
    requires
        d < 10,
    ensures
        r@ == seq![digit_char(d as int)],
{
    let r: &'static str = match d {
        0 => "0",
        1 => "1",
        2 => "2",
        3 => "3",
        4 => "4",
        5 => "5",
        6 => "6",
        7 => "7",
        8 => "8",
        _ => "9",
    };
    proof {
        reveal_strlit("0");
        reveal_strlit("1");
        reveal_strlit("2");
        reveal_strlit("3");
        reveal_strlit("4");
        reveal_strlit("5");
        reveal_strlit("6");
        reveal_strlit("7");
        reveal_strlit("8");
        reveal_strlit("9");
        assert("0"@ =~= seq![digit_char(0)]);
        assert("1"@ =~= seq![digit_char(1)]);
        assert("2"@ =~= seq![digit_char(2)]);
        assert("3"@ =~= seq![digit_char(3)]);
        assert("4"@ =~= seq![digit_char(4)]);
        assert("5"@ =~= seq![digit_char(5)]);
        assert("6"@ =~= seq![digit_char(6)]);
        assert("7"@ =~= seq![digit_char(7)]);
        assert("8"@ =~= seq![digit_char(8)]);
        assert("9"@ =~= seq![digit_char(9)]);
    }
    r
}

fn append_decimal(s: &mut String, v: u8)
    ensures
        final(s)@ == old(s)@ + digits_of(v as int),
    decreases v,
{
    if v >= 10 {
        append_decimal(s, v / 10);
    }
    let ds = digit_str(v % 10);
    s.append(ds);
    proof {
        if v < 10 {
            assert(v % 10 == v);
            assert(old(s)@ + seq![digit_char(v as int)] =~= old(s)@ + digits_of(v as int));
        } else {
            assert(digits_of(v as int) == digits_of(v as int / 10).push(
                digit_char(v as int % 10),
            ));
            assert(old(s)@ + digits_of(v as int / 10) + seq![digit_char(v as int % 10)] =~= old(
                s,
            )@ + digits_of(v as int));
        }
    }
}

proof fn lemma_encode_push(bs: Seq<Badge>, b: Badge)
    ensures
        encode_of(bs.push(b)) == (if bs.len() == 0 {
            encode_entry(b)
        } else {
            encode_of(bs) + seq![','] + encode_entry(b)
        }),
    decreases bs.len(),
{
    let s = bs.push(b);
    if bs.len() == 0 {
        assert(s.len() == 1);
        assert(s[0] == b);
    } else {
        assert(s[0] == bs[0]);
        assert(s.drop_first() =~= bs.drop_first().push(b));
        lemma_encode_push(bs.drop_first(), b);
        if bs.len() == 1 {
            assert(encode_of(s.drop_first()) == encode_entry(b));
            assert(encode_of(bs) == encode_entry(bs[0]));
        } else {
            assert(encode_of(s) == encode_entry(bs[0]) + seq![','] + (encode_of(bs.drop_first())
                + seq![','] + encode_entry(b)));
            assert(encode_entry(bs[0]) + seq![','] + (encode_of(bs.drop_first()) + seq![',']
                + encode_entry(b)) =~= (encode_entry(bs[0]) + seq![','] + encode_of(
                bs.drop_first(),
            )) + seq![','] + encode_entry(b));
        }
    }
}

/// Re-encodes a badge list as a badge-list body: each badge spelled
/// `name/level` with its level in canonical decimal, entries joined by `,`.
pub fn encode_badge_list(badges: &Vec<Badge>) -> (r: String)
    ensures
        r@ == encode_of(badges@),
{
    let mut out = String::new();
    let mut i: usize = 0;
    proof {
        assert(badges@.take(0) =~= Seq::<Badge>::empty());
        assert(encode_of(Seq::<Badge>::empty()) == Seq::<char>::empty());
    }
    while i < badges.len()
        invariant
            0 <= i <= badges@.len(),
            out@ == encode_of(badges@.take(i as int)),
        decreases badges@.len() - i,
    {
        let ghost pre = badges@.take(i as int);
        if i > 0 {
            out.append(",");
            proof {
                reveal_strlit(",");
                assert(","@ =~= seq![',']);
            }
        }
        let b = badges[i];
        out.append(kind_name_str(b.name));
        out.append("/");
        proof {
            reveal_strlit("/");
            assert("/"@ =~= seq!['/']);
        }
        append_decimal(&mut out, b.variant);
        proof {
            lemma_encode_push(pre, badges@[i as int]);
            assert(pre.push(badges@[i as int]) =~= badges@.take(i as int + 1));
            if i > 0 {
                assert(out@ =~= encode_of(pre) + seq![','] + encode_entry(badges@[i as int]));
            } else {
                assert(pre.len() == 0);
                assert(out@ =~= encode_entry(badges@[i as int]));
            }
        }
        i += 1;
    }
    proof {
        assert(badges@.take(badges@.len() as int) =~= badges@);
    }
    out
}

/// Law: re-encoding any badge list as a badge-list body and decoding that
/// body yields exactly the original badges, with no error; in particular the
/// empty list round-trips through the empty body.
pub proof fn lemma_encode_decode_roundtrip(badges: Seq<Badge>)
    ensures
        decode_of(encode_of(badges)) == Ok::<Seq<Badge>, ParseError>(badges),
{
    if badges.len() == 0 {
        assert(badges =~= Seq::<Badge>::empty());
    } else {
        lemma_kind_name_ok(badges[0].name);
        assert(encode_of(badges).len() > 0);
        lemma_split_encoded(badges);
        lemma_decode_entries_encoded(badges);
    }
}

} // verus!
