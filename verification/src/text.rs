//! Escaping and unescaping of character data with XML entities.
use vstd::prelude::*;

verus! {

broadcast use vstd::string::group_string_axioms;

// ---------------------------------------------------------------------------
// Trusted specifications of two std functions that vstd leaves unspecified.
// ---------------------------------------------------------------------------

/// `String::push` appends one character to the end of the string.
pub assume_specification[ String::push ](string: &mut String, ch: char)
    ensures
        final(string)@ == old(string)@.push(ch),
;

/// `char::from_u32` gives the character with the given code point, or `None`
/// where the value is no Unicode scalar value (a surrogate or above 0x10FFFF).
pub assume_specification[ char::from_u32 ](i: u32) -> (r: Option<char>)
    ensures
        r == (if is_scalar(i as int) { Some(i as char) } else { None::<char> }),
;

// ---------------------------------------------------------------------------
// Specification
// ---------------------------------------------------------------------------

/// A Unicode scalar value: a code point that is not a surrogate.
pub open spec fn is_scalar(v: int) -> bool {
    (0 <= v < 0xD800) || (0xE000 <= v <= 0x10FFFF)
}

/// The name of the predefined entity that stands for `c`, for the five
/// characters that escaping replaces.
pub open spec fn entity_name(c: char) -> Option<Seq<char>> {
    if c == '&' {
        Some(seq!['a', 'm', 'p'])
    } else if c == '<' {
        Some(seq!['l', 't'])
    } else if c == '>' {
        Some(seq!['g', 't'])
    } else if c == '\'' {
        Some(seq!['a', 'p', 'o', 's'])
    } else if c == '"' {
        Some(seq!['q', 'u', 'o', 't'])
    } else {
        None
    }
}

/// What escaping writes for one character.
pub open spec fn escape_char(c: char) -> Seq<char> {
    match entity_name(c) {
        Some(name) => seq!['&'] + name + seq![';'],
        None => seq![c],
    }
}

/// The escaped form of a text: each character replaced by `escape_char` of it.
pub open spec fn escaped(s: Seq<char>) -> Seq<char>
    decreases s.len(),
{
    if s.len() == 0 {
        Seq::empty()
    } else {
        escaped(s.drop_last()) + escape_char(s.last())
    }
}

/// The value of a digit in the given radix, as `char::to_digit` reads it.
pub open spec fn digit_value(c: char, radix: nat) -> Option<nat> {
    let d: int = if '0' <= c && c <= '9' {
        c as int - '0' as int
    } else if 'a' <= c && c <= 'z' {
        c as int - 'a' as int + 10
    } else if 'A' <= c && c <= 'Z' {
        c as int - 'A' as int + 10
    } else {
        radix as int
    };
    if d < radix {
        Some(d as nat)
    } else {
        None
    }
}

/// Every character of `s` is a digit in the radix.
pub open spec fn all_digits(s: Seq<char>, radix: nat) -> bool {
    forall|i: int| 0 <= i < s.len() ==> (#[trigger] digit_value(s[i], radix)) is Some
}

/// The number that the digits of `s` write in the radix.
pub open spec fn digits_value(s: Seq<char>, radix: nat) -> nat
    decreases s.len(),
{
    if s.len() == 0 {
        0
    } else {
        digits_value(s.drop_last(), radix) * radix + digit_value(s.last(), radix).unwrap_or(0)
    }
}

/// The character that a numeric character reference with these digits
/// stands for.
pub open spec fn char_ref(digits: Seq<char>, radix: nat) -> Option<char> {
    if digits.len() > 0 && all_digits(digits, radix) && is_scalar(digits_value(digits, radix) as int) {
        Some(digits_value(digits, radix) as char)
    } else {
        None
    }
}

/// The character that the entity `&ent;` stands for, if it is a valid one:
/// one of the five predefined entities, `#x` and hexadecimal digits, or `#`
/// and decimal digits.
pub open spec fn entity_char(ent: Seq<char>) -> Option<char> {
    if ent == seq!['q', 'u', 'o', 't'] {
        Some('"')
    } else if ent == seq!['a', 'p', 'o', 's'] {
        Some('\'')
    } else if ent == seq!['g', 't'] {
        Some('>')
    } else if ent == seq!['l', 't'] {
        Some('<')
    } else if ent == seq!['a', 'm', 'p'] {
        Some('&')
    } else if ent.len() >= 2 && ent[0] == '#' && ent[1] == 'x' {
        char_ref(ent.skip(2), 16)
    } else if ent.len() >= 1 && ent[0] == '#' {
        char_ref(ent.skip(1), 10)
    } else {
        None
    }
}

/// `i` is the first position of `c` in `s`.
pub open spec fn is_first(s: Seq<char>, c: char, i: int) -> bool {
    &&& 0 <= i < s.len()
    &&& s[i] == c
    &&& forall|j: int| 0 <= j < i ==> s[j] != c
}

/// The first position of `c` in `s`.
pub open spec fn index_of(s: Seq<char>, c: char) -> Option<int> {
    if exists|i: int| is_first(s, c, i) {
        Some(choose|i: int| is_first(s, c, i))
    } else {
        None
    }
}

/// The pieces of `s` between occurrences of `c` (as `str::split` gives them).
pub open spec fn split_on(s: Seq<char>, c: char) -> Seq<Seq<char>>
    decreases s.len(),
{
    match index_of(s, c) {
        Some(i) => if 0 <= i < s.len() {
            seq![s.take(i)] + split_on(s.skip(i + 1), c)
        } else {
            seq![s]
        },
        None => seq![s],
    }
}

/// What unescaping makes of a piece of text that followed an `&`: the entity
/// up to the first `;` replaced by its character, or the error text.
pub open spec fn decode_piece(p: Seq<char>) -> Result<Seq<char>, Seq<char>> {
    match index_of(p, ';') {
        None => Err(seq!['&'] + p),
        Some(j) => match entity_char(p.take(j)) {
            Some(ch) => Ok(seq![ch] + p.skip(j + 1)),
            None => Err(seq!['&'] + p.take(j) + seq![';']),
        },
    }
}

/// Put `a` in front of a successful result.
pub open spec fn prepend(a: Seq<char>, r: Result<Seq<char>, Seq<char>>) -> Result<Seq<char>, Seq<char>> {
    match r {
        Ok(t) => Ok(a + t),
        Err(e) => Err(e),
    }
}

/// The pieces decoded in turn and joined; the first error ends it.
pub open spec fn decode_pieces(ps: Seq<Seq<char>>) -> Result<Seq<char>, Seq<char>>
    decreases ps.len(),
{
    if ps.len() == 0 {
        Ok(Seq::empty())
    } else {
        match decode_piece(ps[0]) {
            Err(e) => Err(e),
            Ok(t) => prepend(t, decode_pieces(ps.drop_first())),
        }
    }
}

/// The unescaped form of a text: everything before the first `&` as it is,
/// then each piece after an `&` decoded.
pub open spec fn unescaped(s: Seq<char>) -> Result<Seq<char>, Seq<char>> {
    let ps = split_on(s, '&');
    prepend(ps[0], decode_pieces(ps.drop_first()))
}

// ---------------------------------------------------------------------------
// Lemmas
// ---------------------------------------------------------------------------

proof fn lemma_index_of_is(s: Seq<char>, c: char, i: int)
    requires
        is_first(s, c, i),
    ensures
        index_of(s, c) == Some(i),
{
    let k = choose|k: int| is_first(s, c, k);
    assert(is_first(s, c, k));
    if k < i {
        assert(s[k] != c);
    } else if k > i {
        assert(s[i] != c);
    }
}

proof fn lemma_index_of_none(s: Seq<char>, c: char)
    requires
        forall|j: int| 0 <= j < s.len() ==> s[j] != c,
    ensures
        index_of(s, c) is None,
{
}

proof fn lemma_value_monotone(s: Seq<char>, k: int, radix: nat)
    requires
        0 <= k <= s.len(),
        all_digits(s, radix),
        radix >= 1,
    ensures
        digits_value(s.take(k), radix) <= digits_value(s, radix),
    decreases s.len(),
{
    if k == s.len() {
        assert(s.take(k) =~= s);
    } else {
        let d = s.drop_last();
        assert(d.take(k) =~= s.take(k));
        assert forall|i: int| 0 <= i < d.len() implies (#[trigger] digit_value(d[i], radix)) is Some by {
            assert(d[i] == s[i]);
        }
        lemma_value_monotone(d, k, radix);
        let v = digits_value(d, radix);
        assert(v <= v * radix) by (nonlinear_arith)
            requires
                radix >= 1,
        ;
    }
}

/// Splitting the text from `start` on, where the next `&` (if any) stands at `end`.
proof fn lemma_split_step(s: Seq<char>, start: int, end: int)
    requires
        0 <= start <= end <= s.len(),
        index_of(s.subrange(start, s.len() as int), '&') == (if end < s.len() {
            Some(end - start)
        } else {
            None::<int>
        }),
    ensures
        split_on(s.skip(start), '&') == (if end < s.len() {
            seq![s.subrange(start, end)] + split_on(s.skip(end + 1), '&')
        } else {
            seq![s.subrange(start, end)]
        }),
{
    let rest = s.skip(start);
    assert(rest =~= s.subrange(start, s.len() as int));
    if end < s.len() {
        assert(rest.take(end - start) =~= s.subrange(start, end));
        assert(rest.skip(end - start + 1) =~= s.skip(end + 1));
    } else {
        assert(rest =~= s.subrange(start, end));
    }
}

proof fn lemma_decode_pieces_cons(p: Seq<char>, rest: Seq<Seq<char>>)
    ensures
        decode_pieces(seq![p] + rest) == (match decode_piece(p) {
            Err(e) => Err(e),
            Ok(t) => prepend(t, decode_pieces(rest)),
        }),
{
    let ps = seq![p] + rest;
    assert(ps[0] == p);
    assert(ps.drop_first() =~= rest);
}

proof fn lemma_prepend_prepend(a: Seq<char>, b: Seq<char>, r: Result<Seq<char>, Seq<char>>)
    ensures
        prepend(a, prepend(b, r)) == prepend(a + b, r),
{
    match r {
        Ok(t) => {
            assert(a + (b + t) =~= (a + b) + t);
        },
        Err(_) => {},
    }
}

// ---------------------------------------------------------------------------
// Laws
// ---------------------------------------------------------------------------

proof fn lemma_first_exists(s: Seq<char>, c: char, i: int)
    requires
        0 <= i < s.len(),
        s[i] == c,
    ensures
        index_of(s, c) is Some,
    decreases i,
{
    if exists|j: int| 0 <= j < i && s[j] == c {
        let j = choose|j: int| 0 <= j < i && s[j] == c;
        lemma_first_exists(s, c, j);
    } else {
        assert(is_first(s, c, i));
    }
}

proof fn lemma_split_nonempty(s: Seq<char>, c: char)
    ensures
        split_on(s, c).len() >= 1,
{
}

/// Text without `&` in front of `v` is the first piece of the split, and the
/// other pieces stay.
proof fn lemma_split_prefix(t: Seq<char>, v: Seq<char>)
    requires
        forall|j: int| 0 <= j < t.len() ==> t[j] != '&',
    ensures
        split_on(t + v, '&') == split_on(v, '&').update(0, t + split_on(v, '&')[0]),
{
    let s = t + v;
    match index_of(v, '&') {
        Some(k) => {
            assert(is_first(v, '&', k));
            assert(is_first(s, '&', t.len() + k));
            lemma_index_of_is(s, '&', t.len() + k);
            assert(s.take(t.len() + k) =~= t + v.take(k));
            assert(s.skip(t.len() + k + 1) =~= v.skip(k + 1));
            assert(split_on(t + v, '&') =~= split_on(v, '&').update(0, t + split_on(v, '&')[0]));
        },
        None => {
            if exists|j: int| 0 <= j < s.len() && s[j] == '&' {
                let j = choose|j: int| 0 <= j < s.len() && s[j] == '&';
                assert(s[j] == v[j - t.len()]);
                lemma_first_exists(v, '&', j - t.len());
            }
            lemma_index_of_none(s, '&');
            assert(split_on(t + v, '&') =~= split_on(v, '&').update(0, t + split_on(v, '&')[0]));
        },
    }
}

/// Text without `&` passes through unescaping unchanged.
proof fn lemma_unescaped_text(t: Seq<char>, v: Seq<char>)
    requires
        forall|j: int| 0 <= j < t.len() ==> t[j] != '&',
    ensures
        unescaped(t + v) == prepend(t, unescaped(v)),
{
    lemma_split_prefix(t, v);
    lemma_split_nonempty(v, '&');
    let ps = split_on(v, '&');
    let qs = split_on(t + v, '&');
    assert(qs.drop_first() =~= ps.drop_first());
    lemma_prepend_prepend(t, ps[0], decode_pieces(ps.drop_first()));
}

/// A valid entity reference is replaced by its character.
proof fn lemma_unescaped_entity(name: Seq<char>, c: char, v: Seq<char>)
    requires
        forall|j: int| 0 <= j < name.len() ==> name[j] != '&' && name[j] != ';',
        entity_char(name) == Some(c),
    ensures
        unescaped(seq!['&'] + name + seq![';'] + v) == prepend(seq![c], unescaped(v)),
{
    let t = name + seq![';'];
    let w = t + v;
    let s = seq!['&'] + name + seq![';'] + v;
    assert(s =~= seq!['&'] + w);
    assert(is_first(s, '&', 0));
    lemma_index_of_is(s, '&', 0);
    assert(s.take(0) =~= Seq::<char>::empty());
    assert(s.skip(1) =~= w);
    assert(split_on(s, '&') =~= seq![Seq::<char>::empty()] + split_on(w, '&'));
    lemma_split_prefix(t, v);
    lemma_split_nonempty(v, '&');
    let ps = split_on(v, '&');
    let p = t + ps[0];
    assert(split_on(w, '&') =~= seq![p] + ps.drop_first());
    lemma_decode_pieces_cons(p, ps.drop_first());
    assert(is_first(p, ';', name.len() as int));
    lemma_index_of_is(p, ';', name.len() as int);
    assert(p.take(name.len() as int) =~= name);
    assert(p.skip(name.len() as int + 1) =~= ps[0]);
    lemma_prepend_prepend(seq![c], ps[0], decode_pieces(ps.drop_first()));
    let sp = split_on(s, '&');
    assert(sp[0] =~= Seq::<char>::empty());
    assert(sp.drop_first() =~= split_on(w, '&'));
    match decode_pieces(split_on(w, '&')) {
        Ok(x) => {
            assert(Seq::<char>::empty() + x =~= x);
        },
        Err(_) => {},
    }
}

proof fn lemma_escaped_front(s: Seq<char>)
    requires
        s.len() > 0,
    ensures
        escaped(s) == escape_char(s[0]) + escaped(s.drop_first()),
    decreases s.len(),
{
    let d = s.drop_last();
    if d.len() == 0 {
        assert(s.drop_first() =~= Seq::<char>::empty());
        assert(escaped(d) == Seq::<char>::empty());
        assert(escaped(s) =~= escape_char(s[0]) + escaped(s.drop_first()));
    } else {
        lemma_escaped_front(d);
        assert(d.drop_first() =~= s.drop_first().drop_last());
        assert(s.drop_first().last() == s.last());
        assert(escaped(s) =~= escape_char(s[0]) + escaped(s.drop_first()));
    }
}

proof fn lemma_entity_names(c: char)
    requires
        entity_name(c) is Some,
    ensures
        entity_char(entity_name(c).unwrap()) == Some(c),
        forall|j: int|
            0 <= j < entity_name(c).unwrap().len() ==> entity_name(c).unwrap()[j] != '&'
                && entity_name(c).unwrap()[j] != ';',
{
    let n = entity_name(c).unwrap();
    if c == '&' {
        assert(n != seq!['q', 'u', 'o', 't']);
        assert(n != seq!['a', 'p', 'o', 's']);
        assert(n != seq!['g', 't']);
        assert(n != seq!['l', 't']);
    } else if c == '<' {
        assert(n != seq!['q', 'u', 'o', 't']);
        assert(n != seq!['a', 'p', 'o', 's']);
        assert(n[0] != seq!['g', 't'][0]);
    } else if c == '>' {
        assert(n != seq!['q', 'u', 'o', 't']);
        assert(n != seq!['a', 'p', 'o', 's']);
    } else if c == '\'' {
        assert(n[0] != seq!['q', 'u', 'o', 't'][0]);
    }
}

/// Unescaping undoes escaping: for every text `s`, unescaping the escaped
/// form of `s` succeeds and gives `s` back.
pub proof fn unescape_inverts_escape(s: Seq<char>)
    ensures
        unescaped(escaped(s)) == Ok::<Seq<char>, Seq<char>>(s),
    decreases s.len(),
{
    if s.len() == 0 {
        assert(escaped(s) == Seq::<char>::empty());
        let e = Seq::<char>::empty();
        lemma_index_of_none(e, '&');
        assert(split_on(e, '&') =~= seq![e]);
        assert(seq![e].drop_first() =~= Seq::<Seq<char>>::empty());
        assert(e + e =~= s);
    } else {
        let c = s[0];
        let r = s.drop_first();
        lemma_escaped_front(s);
        unescape_inverts_escape(r);
        match entity_name(c) {
            Some(name) => {
                lemma_entity_names(c);
                assert(escaped(s) =~= seq!['&'] + name + seq![';'] + escaped(r));
                lemma_unescaped_entity(name, c, escaped(r));
            },
            None => {
                assert(c != '&');
                lemma_unescaped_text(seq![c], escaped(r));
            },
        }
        assert(seq![c] + r =~= s);
    }
}

/// Escaping works character by character: the escaped form of a
/// concatenation is the concatenation of the escaped forms.
pub proof fn escape_distributes(a: Seq<char>, b: Seq<char>)
    ensures
        escaped(a + b) == escaped(a) + escaped(b),
    decreases b.len(),
{
    if b.len() == 0 {
        assert(a + b =~= a);
        assert(escaped(a) + escaped(b) =~= escaped(a));
    } else {
        assert((a + b).drop_last() =~= a + b.drop_last());
        assert((a + b).last() == b.last());
        escape_distributes(a, b.drop_last());
        assert(escaped(a + b) =~= escaped(a) + escaped(b));
    }
}

/// The digit that writes `d` (below 36): `0`-`9`, then lower-case letters.
pub open spec fn digit_char(d: nat) -> char {
    if d < 10 {
        ('0' as int + d) as char
    } else {
        ('a' as int + d - 10) as char
    }
}

/// `v` written in positional notation in the radix, without leading zeros.
pub open spec fn digits_of(v: nat, radix: nat) -> Seq<char>
    decreases v,
{
    if radix < 2 || v < radix {
        seq![digit_char(v)]
    } else {
        proof {
            vstd::arithmetic::div_mod::lemma_div_decreases(v as int, radix as int);
        }
        digits_of(v / radix, radix).push(digit_char(v % radix))
    }
}

proof fn lemma_digit_char(d: nat, radix: nat)
    requires
        d < radix <= 16,
    ensures
        digit_value(digit_char(d), radix) == Some(d),
        digit_char(d) != '&' && digit_char(d) != ';' && digit_char(d) != '#' && digit_char(d) != 'x',
{
}

proof fn lemma_digits_of(v: nat, radix: nat)
    requires
        2 <= radix <= 16,
    ensures
        digits_of(v, radix).len() > 0,
        all_digits(digits_of(v, radix), radix),
        digits_value(digits_of(v, radix), radix) == v,
        forall|i: int|
            0 <= i < digits_of(v, radix).len() ==> #[trigger] digits_of(v, radix)[i] != '&'
                && digits_of(v, radix)[i] != ';' && digits_of(v, radix)[i] != '#'
                && digits_of(v, radix)[i] != 'x',
    decreases v,
{
    let s = digits_of(v, radix);
    if v < radix {
        lemma_digit_char(v, radix);
        assert(s.drop_last() =~= Seq::<char>::empty());
        assert(digits_value(Seq::<char>::empty(), radix) == 0);
        assert(digits_value(s, radix) == 0 * radix + v);
    } else {
        vstd::arithmetic::div_mod::lemma_div_decreases(v as int, radix as int);
        vstd::arithmetic::div_mod::lemma_mod_pos_bound(v as int, radix as int);
        vstd::arithmetic::div_mod::lemma_fundamental_div_mod(v as int, radix as int);
        let q = v / radix;
        let r = v % radix;
        lemma_digits_of(q, radix);
        lemma_digit_char(r, radix);
        let p = digits_of(q, radix);
        assert(s == p.push(digit_char(r)));
        assert(s.drop_last() =~= p);
        assert forall|i: int| 0 <= i < s.len() implies (#[trigger] digit_value(s[i], radix)) is Some by {
            if i < p.len() {
                assert(s[i] == p[i]);
            }
        }
        assert forall|i: int| 0 <= i < s.len() implies #[trigger] s[i] != '&' && s[i] != ';'
            && s[i] != '#' && s[i] != 'x' by {
            if i < p.len() {
                assert(s[i] == p[i]);
            }
        }
        assert(digits_value(s, radix) == q * radix + r);
        assert(q * radix == radix * q) by (nonlinear_arith);
    }
}

/// Every Unicode scalar value can be written as a numeric character
/// reference, in decimal (`&#233;`) or in hexadecimal (`&#xe9;`), and
/// unescaping such a reference gives exactly that one character.
pub proof fn numeric_references_decode(v: nat)
    requires
        is_scalar(v as int),
    ensures
        unescaped(seq!['&', '#'] + digits_of(v, 10) + seq![';']) == Ok::<Seq<char>, Seq<char>>(
            seq![v as char],
        ),
        unescaped(seq!['&', '#', 'x'] + digits_of(v, 16) + seq![';']) == Ok::<Seq<char>, Seq<char>>(
            seq![v as char],
        ),
{
    let e = Seq::<char>::empty();
    unescape_plain_text(e);
    lemma_digits_of(v, 10);
    lemma_digits_of(v, 16);
    let d10 = digits_of(v, 10);
    let d16 = digits_of(v, 16);
    let n10 = seq!['#'] + d10;
    let n16 = seq!['#', 'x'] + d16;
    assert(n10.skip(1) =~= d10);
    assert(n16.skip(2) =~= d16);
    assert(n10[1] == d10[0]);
    assert(n10 != seq!['q', 'u', 'o', 't']);
    assert(n10 != seq!['a', 'p', 'o', 's']);
    assert(n10 != seq!['g', 't']);
    assert(n10 != seq!['l', 't']);
    assert(n10 != seq!['a', 'm', 'p']);
    assert(n16 != seq!['q', 'u', 'o', 't']);
    assert(n16 != seq!['a', 'p', 'o', 's']);
    assert(n16 != seq!['g', 't']);
    assert(n16 != seq!['l', 't']);
    assert(n16 != seq!['a', 'm', 'p']);
    assert(entity_char(n10) == Some(v as char));
    assert(entity_char(n16) == Some(v as char));
    assert forall|j: int| 0 <= j < n10.len() implies n10[j] != '&' && n10[j] != ';' by {
        if j > 0 {
            assert(n10[j] == d10[j - 1]);
        }
    }
    assert forall|j: int| 0 <= j < n16.len() implies n16[j] != '&' && n16[j] != ';' by {
        if j > 1 {
            assert(n16[j] == d16[j - 2]);
        }
    }
    lemma_unescaped_entity(n10, v as char, e);
    lemma_unescaped_entity(n16, v as char, e);
    assert(seq!['&', '#'] + d10 + seq![';'] =~= seq!['&'] + n10 + seq![';'] + e);
    assert(seq!['&', '#', 'x'] + d16 + seq![';'] =~= seq!['&'] + n16 + seq![';'] + e);
    assert(seq![v as char] + e =~= seq![v as char]);
}

/// Escaped text holds none of the markup characters `<`, `>`, `'` and `"`.
pub proof fn escaped_has_no_markup(s: Seq<char>)
    ensures
        forall|i: int|
            0 <= i < escaped(s).len() ==> #[trigger] escaped(s)[i] != '<' && escaped(s)[i] != '>'
                && escaped(s)[i] != '\'' && escaped(s)[i] != '"',
    decreases s.len(),
{
    if s.len() > 0 {
        let d = s.drop_last();
        escaped_has_no_markup(d);
        let c = s.last();
        let e = escape_char(c);
        assert forall|i: int| 0 <= i < e.len() implies #[trigger] e[i] != '<' && e[i] != '>' && e[i]
            != '\'' && e[i] != '"' by {
            if c == '&' {
                assert(e =~= seq!['&', 'a', 'm', 'p', ';']);
            } else if c == '<' {
                assert(e =~= seq!['&', 'l', 't', ';']);
            } else if c == '>' {
                assert(e =~= seq!['&', 'g', 't', ';']);
            } else if c == '\'' {
                assert(e =~= seq!['&', 'a', 'p', 'o', 's', ';']);
            } else if c == '"' {
                assert(e =~= seq!['&', 'q', 'u', 'o', 't', ';']);
            }
        }
        assert forall|i: int| 0 <= i < escaped(s).len() implies #[trigger] escaped(s)[i] != '<'
            && escaped(s)[i] != '>' && escaped(s)[i] != '\'' && escaped(s)[i] != '"' by {
            if i < escaped(d).len() {
                assert(escaped(s)[i] == escaped(d)[i]);
            } else {
                assert(escaped(s)[i] == e[i - escaped(d).len()]);
            }
        }
    }
}

/// An entity reference whose name is none of the five predefined ones and
/// does not start with `#` is refused, with the reference as the error.
pub proof fn unknown_entities_are_rejected(name: Seq<char>, rest: Seq<char>)
    requires
        forall|j: int| 0 <= j < name.len() ==> name[j] != '&' && name[j] != ';',
        name != seq!['q', 'u', 'o', 't'],
        name != seq!['a', 'p', 'o', 's'],
        name != seq!['g', 't'],
        name != seq!['l', 't'],
        name != seq!['a', 'm', 'p'],
        name.len() == 0 || name[0] != '#',
    ensures
        unescaped(seq!['&'] + name + seq![';'] + rest) == Err::<Seq<char>, Seq<char>>(
            seq!['&'] + name + seq![';'],
        ),
{
    lemma_entity_rejected(name, rest);
}

/// A numeric character reference to a value that is no Unicode scalar value
/// (a surrogate, or above 0x10FFFF) is refused, in decimal and in hexadecimal.
pub proof fn non_scalar_references_are_rejected(v: nat, rest: Seq<char>)
    requires
        !is_scalar(v as int),
    ensures
        unescaped(seq!['&', '#'] + digits_of(v, 10) + seq![';'] + rest) == Err::<Seq<char>, Seq<char>>(
            seq!['&', '#'] + digits_of(v, 10) + seq![';'],
        ),
        unescaped(seq!['&', '#', 'x'] + digits_of(v, 16) + seq![';'] + rest) == Err::<
            Seq<char>,
            Seq<char>,
        >(seq!['&', '#', 'x'] + digits_of(v, 16) + seq![';']),
{
    lemma_digits_of(v, 10);
    lemma_digits_of(v, 16);
    let d10 = digits_of(v, 10);
    let d16 = digits_of(v, 16);
    let n10 = seq!['#'] + d10;
    let n16 = seq!['#', 'x'] + d16;
    assert(n10.skip(1) =~= d10);
    assert(n16.skip(2) =~= d16);
    assert(n10[1] == d10[0]);
    assert forall|j: int| 0 <= j < n10.len() implies n10[j] != '&' && n10[j] != ';' by {
        if j > 0 {
            assert(n10[j] == d10[j - 1]);
        }
    }
    assert forall|j: int| 0 <= j < n16.len() implies n16[j] != '&' && n16[j] != ';' by {
        if j > 1 {
            assert(n16[j] == d16[j - 2]);
        }
    }
    assert(n10 != seq!['q', 'u', 'o', 't']);
    assert(n10 != seq!['a', 'p', 'o', 's']);
    assert(n10 != seq!['g', 't']);
    assert(n10 != seq!['l', 't']);
    assert(n10 != seq!['a', 'm', 'p']);
    assert(n16 != seq!['q', 'u', 'o', 't']);
    assert(n16 != seq!['a', 'p', 'o', 's']);
    assert(n16 != seq!['g', 't']);
    assert(n16 != seq!['l', 't']);
    assert(n16 != seq!['a', 'm', 'p']);
    assert(entity_char(n10) is None);
    assert(entity_char(n16) is None);
    lemma_entity_rejected(n10, rest);
    lemma_entity_rejected(n16, rest);
    assert(seq!['&', '#'] + d10 + seq![';'] + rest =~= seq!['&'] + n10 + seq![';'] + rest);
    assert(seq!['&', '#'] + d10 + seq![';'] =~= seq!['&'] + n10 + seq![';']);
    assert(seq!['&', '#', 'x'] + d16 + seq![';'] + rest =~= seq!['&'] + n16 + seq![';'] + rest);
    assert(seq!['&', '#', 'x'] + d16 + seq![';'] =~= seq!['&'] + n16 + seq![';']);
}

/// An entity reference that names no character is refused, with the reference as the error.
proof fn lemma_entity_rejected(name: Seq<char>, v: Seq<char>)
    requires
        forall|j: int| 0 <= j < name.len() ==> name[j] != '&' && name[j] != ';',
        entity_char(name) is None,
    ensures
        unescaped(seq!['&'] + name + seq![';'] + v) == Err::<Seq<char>, Seq<char>>(
            seq!['&'] + name + seq![';'],
        ),
{
    let t = name + seq![';'];
    let w = t + v;
    let s = seq!['&'] + name + seq![';'] + v;
    assert(s =~= seq!['&'] + w);
    assert(is_first(s, '&', 0));
    lemma_index_of_is(s, '&', 0);
    assert(s.take(0) =~= Seq::<char>::empty());
    assert(s.skip(1) =~= w);
    assert(split_on(s, '&') =~= seq![Seq::<char>::empty()] + split_on(w, '&'));
    lemma_split_prefix(t, v);
    lemma_split_nonempty(v, '&');
    let ps = split_on(v, '&');
    let p = t + ps[0];
    assert(split_on(w, '&') =~= seq![p] + ps.drop_first());
    lemma_decode_pieces_cons(p, ps.drop_first());
    assert(is_first(p, ';', name.len() as int));
    lemma_index_of_is(p, ';', name.len() as int);
    assert(p.take(name.len() as int) =~= name);
    let sp = split_on(s, '&');
    assert(sp.drop_first() =~= split_on(w, '&'));
}

/// `w` occurs in `t`.
pub open spec fn is_infix(w: Seq<char>, t: Seq<char>) -> bool {
    exists|k: int| 0 <= k && k + w.len() <= t.len() && #[trigger] t.subrange(k, k + w.len()) == w
}

proof fn lemma_infix_of_skip(w: Seq<char>, s: Seq<char>, k: int)
    requires
        0 <= k <= s.len(),
        is_infix(w, s.skip(k)),
    ensures
        is_infix(w, s),
{
    let r = s.skip(k);
    let m = choose|m: int| 0 <= m && m + w.len() <= r.len() && #[trigger] r.subrange(m, m + w.len()) == w;
    assert(s.subrange(k + m, k + m + w.len()) =~= r.subrange(m, m + w.len()));
}

proof fn lemma_first_piece_prefix(s: Seq<char>, c: char)
    ensures
        split_on(s, c)[0].is_prefix_of(s),
{
    match index_of(s, c) {
        Some(i) => {
            assert(is_first(s, c, i)) by {
                assert(exists|k: int| is_first(s, c, k));
            }
            assert(s.take(i).is_prefix_of(s)) by {
                assert(s.take(i) =~= s.subrange(0, i));
            }
        },
        None => {
            assert(s.is_prefix_of(s)) by {
                assert(s.subrange(0, s.len() as int) =~= s);
            }
        },
    }
}

/// Each piece after an `&` stands in the text right after that `&`.
proof fn lemma_pieces_in_text(s: Seq<char>)
    ensures
        forall|m: int|
            1 <= m < split_on(s, '&').len() ==> is_infix(
                seq!['&'] + #[trigger] split_on(s, '&')[m],
                s,
            ),
    decreases s.len(),
{
    match index_of(s, '&') {
        Some(i) => {
            assert(is_first(s, '&', i)) by {
                assert(exists|k: int| is_first(s, '&', k));
            }
            let r = s.skip(i + 1);
            lemma_pieces_in_text(r);
            lemma_first_piece_prefix(r, '&');
            lemma_split_nonempty(r, '&');
            let ps = split_on(s, '&');
            let qs = split_on(r, '&');
            assert(ps =~= seq![s.take(i)] + qs);
            assert forall|m: int| 1 <= m < ps.len() implies is_infix(seq!['&'] + #[trigger] ps[m], s) by {
                assert(ps[m] == qs[m - 1]);
                if m == 1 {
                    let w = seq!['&'] + qs[0];
                    assert(s.subrange(i, i + w.len()) =~= w);
                } else {
                    assert(is_infix(seq!['&'] + qs[m - 1], r));
                    lemma_infix_of_skip(seq!['&'] + qs[m - 1], s, i + 1);
                }
            }
        },
        None => {},
    }
}

proof fn lemma_decode_piece_error(p: Seq<char>)
    ensures
        decode_piece(p) matches Err(e) ==> e.len() > 0 && e[0] == '&' && e.is_prefix_of(seq!['&'] + p),
{
    match index_of(p, ';') {
        None => {
            let w = seq!['&'] + p;
            assert(w.subrange(0, w.len() as int) =~= w);
        },
        Some(j) => {
            assert(is_first(p, ';', j)) by {
                assert(exists|k: int| is_first(p, ';', k));
            }
            let e = seq!['&'] + p.take(j) + seq![';'];
            let w = seq!['&'] + p;
            assert(w.subrange(0, e.len() as int) =~= e);
        },
    }
}

proof fn lemma_decode_pieces_error(ps: Seq<Seq<char>>)
    ensures
        decode_pieces(ps) matches Err(e) ==> exists|m: int|
            0 <= m < ps.len() && decode_piece(#[trigger] ps[m]) == Err::<Seq<char>, Seq<char>>(e),
    decreases ps.len(),
{
    if ps.len() > 0 {
        lemma_decode_pieces_error(ps.drop_first());
        match decode_pieces(ps) {
            Err(e) => {
                match decode_piece(ps[0]) {
                    Err(_) => {
                        assert(decode_piece(ps[0]) == Err::<Seq<char>, Seq<char>>(e));
                    },
                    Ok(t) => {
                        let m = choose|m: int|
                            0 <= m < ps.drop_first().len() && decode_piece(
                                #[trigger] ps.drop_first()[m],
                            ) == Err::<Seq<char>, Seq<char>>(e);
                        assert(ps[m + 1] == ps.drop_first()[m]);
                    },
                }
            },
            Ok(_) => {},
        }
    }
}

/// When unescaping fails, the error is an entity reference of the input: a
/// piece of the input that starts with `&`.
pub proof fn unescape_errors_come_from_input(s: Seq<char>)
    ensures
        unescaped(s) matches Err(e) ==> e.len() > 0 && e[0] == '&' && is_infix(e, s),
{
    let ps = split_on(s, '&');
    lemma_split_nonempty(s, '&');
    match unescaped(s) {
        Err(e) => {
            lemma_decode_pieces_error(ps.drop_first());
            let m = choose|m: int|
                0 <= m < ps.drop_first().len() && decode_piece(#[trigger] ps.drop_first()[m])
                    == Err::<Seq<char>, Seq<char>>(e);
            let p = ps.drop_first()[m];
            assert(p == ps[m + 1]);
            lemma_decode_piece_error(p);
            lemma_pieces_in_text(s);
            let w = seq!['&'] + p;
            assert(is_infix(w, s));
            let k = choose|k: int| 0 <= k && k + w.len() <= s.len() && #[trigger] s.subrange(k, k + w.len()) == w;
            assert(s.subrange(k, k + e.len()) =~= w.subrange(0, e.len() as int));
        },
        Ok(_) => {},
    }
}

/// Text without `&` unescapes to itself.
pub proof fn unescape_plain_text(s: Seq<char>)
    requires
        forall|i: int| 0 <= i < s.len() ==> s[i] != '&',
    ensures
        unescaped(s) == Ok::<Seq<char>, Seq<char>>(s),
{
    lemma_index_of_none(s, '&');
    assert(split_on(s, '&') =~= seq![s]);
    assert(seq![s].drop_first() =~= Seq::<Seq<char>>::empty());
    assert(s + Seq::<char>::empty() =~= s);
}

// ---------------------------------------------------------------------------
// Executable code
// ---------------------------------------------------------------------------

/// The characters of `s`, in order.
fn chars_of(s: &str) -> (v: Vec<char>)
    ensures
        v@ == s@,
{
    let mut v: Vec<char> = Vec::new();
    for c in iter: s.chars()
        invariant
            v@ == iter.history(),
    {
        v.push(c);
    }
    v
}

/// Escapes ', ", &, <, and > with the appropriate XML entities.
pub fn escape(input: &str) -> (result: String)
    ensures
        result@ == escaped(input@),
{
    let chars = chars_of(input);
    let mut result = String::new();
    let mut i: usize = 0;
    while i < chars.len()
        invariant
            i <= chars.len(),
            chars@ == input@,
            result@ == escaped(chars@.take(i as int)),
        decreases chars.len() - i,
    {
        let c = chars[i];
        let ghost before = result@;
        if c == '&' {
            result.append("&amp;");
            proof {
                reveal_strlit("&amp;");
            }
        } else if c == '<' {
            result.append("&lt;");
            proof {
                reveal_strlit("&lt;");
            }
        } else if c == '>' {
            result.append("&gt;");
            proof {
                reveal_strlit("&gt;");
            }
        } else if c == '\'' {
            result.append("&apos;");
            proof {
                reveal_strlit("&apos;");
            }
        } else if c == '"' {
            result.append("&quot;");
            proof {
                reveal_strlit("&quot;");
            }
        } else {
            result.push(c);
        }
        assert(result@ =~= before + escape_char(c));
        assert(chars@.take(i + 1).drop_last() =~= chars@.take(i as int));
        i = i + 1;
    }
    assert(chars@.take(chars.len() as int) =~= chars@);
    result
}

/// The first position of `c` in `cs[lo..hi]`, or `hi` where there is none.
fn find_char(cs: &Vec<char>, lo: usize, hi: usize, c: char) -> (k: usize)
    requires
        lo <= hi <= cs.len(),
    ensures
        lo <= k <= hi,
        index_of(cs@.subrange(lo as int, hi as int), c) == (if k < hi {
            Some(k - lo)
        } else {
            None::<int>
        }),
{
    let mut k = lo;
    while k < hi && cs[k] != c
        invariant
            lo <= k <= hi <= cs.len(),
            forall|j: int| lo <= j < k ==> cs@[j] != c,
        decreases hi - k,
    {
        k = k + 1;
    }
    proof {
        let s = cs@.subrange(lo as int, hi as int);
        if k < hi {
            lemma_index_of_is(s, c, k - lo);
        } else {
            lemma_index_of_none(s, c);
        }
    }
    k
}

/// The value of `c` as a digit in the radix.
fn digit_of(c: char, radix: u32) -> (d: Option<u32>)
    requires
        2 <= radix <= 36,
    ensures
        d == (match digit_value(c, radix as nat) {
            Some(v) => Some(v as u32),
            None => None::<u32>,
        }),
{
    let v: u32 = if '0' <= c && c <= '9' {
        (c as u32) - ('0' as u32)
    } else if 'a' <= c && c <= 'z' {
        (c as u32) - ('a' as u32) + 10
    } else if 'A' <= c && c <= 'Z' {
        (c as u32) - ('A' as u32) + 10
    } else {
        radix
    };
    if v < radix {
        Some(v)
    } else {
        None
    }
}

/// The character that the digits `cs[lo..hi]` write in the radix.
fn char_ref_of(cs: &Vec<char>, lo: usize, hi: usize, radix: u32) -> (r: Option<char>)
    requires
        lo <= hi <= cs.len(),
        radix == 10 || radix == 16,
    ensures
        r == char_ref(cs@.subrange(lo as int, hi as int), radix as nat),
{
    let ghost full = cs@.subrange(lo as int, hi as int);
    if lo == hi {
        return None;
    }
    let mut v: u32 = 0;
    let mut i = lo;
    while i < hi
        invariant
            lo <= i <= hi <= cs.len(),
            radix == 10 || radix == 16,
            full == cs@.subrange(lo as int, hi as int),
            all_digits(cs@.subrange(lo as int, i as int), radix as nat),
            v == digits_value(cs@.subrange(lo as int, i as int), radix as nat),
            v <= 0x10FFFF,
        decreases hi - i,
    {
        let ghost pre = cs@.subrange(lo as int, i as int);
        let ghost next = cs@.subrange(lo as int, i + 1);
        assert(next.drop_last() =~= pre);
        assert(next.last() == cs@[i as int]);
        assert(full[i - lo] == cs@[i as int]);
        match digit_of(cs[i], radix) {
            None => {
                return None;
            },
            Some(d) => {
                assert(v * radix <= 0x10FFFF * 16) by (nonlinear_arith)
                    requires
                        v <= 0x10FFFF,
                        radix <= 16,
                ;
                let nv = v * radix + d;
                assert forall|j: int| 0 <= j < next.len() implies (#[trigger] digit_value(next[j], radix as nat)) is Some by {
                    if j < pre.len() {
                        assert(next[j] == pre[j]);
                    }
                }
                if nv > 0x10FFFF {
                    proof {
                        if all_digits(full, radix as nat) {
                            assert(full.take(i + 1 - lo) =~= next);
                            lemma_value_monotone(full, i + 1 - lo, radix as nat);
                        }
                    }
                    return None;
                }
                v = nv;
                i = i + 1;
            },
        }
    }
    assert(cs@.subrange(lo as int, hi as int) =~= full);
    char::from_u32(v)
}

/// The character that the entity `cs[lo..hi]` stands for.
fn entity_char_of(cs: &Vec<char>, lo: usize, hi: usize) -> (r: Option<char>)
    requires
        lo <= hi <= cs.len(),
    ensures
        r == entity_char(cs@.subrange(lo as int, hi as int)),
{
    let ghost ent = cs@.subrange(lo as int, hi as int);
    let n = hi - lo;
    if n == 4 && cs[lo] == 'q' && cs[lo + 1] == 'u' && cs[lo + 2] == 'o' && cs[lo + 3] == 't' {
        assert(ent =~= seq!['q', 'u', 'o', 't']);
        return Some('"');
    }
    assert(ent != seq!['q', 'u', 'o', 't']) by {
        if ent == seq!['q', 'u', 'o', 't'] {
            assert(ent[0] == 'q' && ent[1] == 'u' && ent[2] == 'o' && ent[3] == 't');
        }
    }
    if n == 4 && cs[lo] == 'a' && cs[lo + 1] == 'p' && cs[lo + 2] == 'o' && cs[lo + 3] == 's' {
        assert(ent =~= seq!['a', 'p', 'o', 's']);
        return Some('\'');
    }
    assert(ent != seq!['a', 'p', 'o', 's']) by {
        if ent == seq!['a', 'p', 'o', 's'] {
            assert(ent[0] == 'a' && ent[1] == 'p' && ent[2] == 'o' && ent[3] == 's');
        }
    }
    if n == 2 && cs[lo] == 'g' && cs[lo + 1] == 't' {
        assert(ent =~= seq!['g', 't']);
        return Some('>');
    }
    assert(ent != seq!['g', 't']) by {
        if ent == seq!['g', 't'] {
            assert(ent[0] == 'g' && ent[1] == 't');
        }
    }
    if n == 2 && cs[lo] == 'l' && cs[lo + 1] == 't' {
        assert(ent =~= seq!['l', 't']);
        return Some('<');
    }
    assert(ent != seq!['l', 't']) by {
        if ent == seq!['l', 't'] {
            assert(ent[0] == 'l' && ent[1] == 't');
        }
    }
    if n == 3 && cs[lo] == 'a' && cs[lo + 1] == 'm' && cs[lo + 2] == 'p' {
        assert(ent =~= seq!['a', 'm', 'p']);
        return Some('&');
    }
    assert(ent != seq!['a', 'm', 'p']) by {
        if ent == seq!['a', 'm', 'p'] {
            assert(ent[0] == 'a' && ent[1] == 'm' && ent[2] == 'p');
        }
    }
    if n >= 2 && cs[lo] == '#' && cs[lo + 1] == 'x' {
        assert(ent.skip(2) =~= cs@.subrange(lo + 2, hi as int));
        return char_ref_of(cs, lo + 2, hi, 16);
    }
    if n >= 1 && cs[lo] == '#' {
        assert(ent.skip(1) =~= cs@.subrange(lo + 1, hi as int));
        return char_ref_of(cs, lo + 1, hi, 10);
    }
    None
}

/// Appends `cs[lo..hi]` to `s`.
fn push_range(s: &mut String, cs: &Vec<char>, lo: usize, hi: usize)
    requires
        lo <= hi <= cs.len(),
    ensures
        final(s)@ == old(s)@ + cs@.subrange(lo as int, hi as int),
{
    let mut i = lo;
    while i < hi
        invariant
            lo <= i <= hi <= cs.len(),
            s@ == old(s)@ + cs@.subrange(lo as int, i as int),
        decreases hi - i,
    {
        s.push(cs[i]);
        assert(cs@.subrange(lo as int, i + 1) =~= cs@.subrange(lo as int, i as int).push(cs@[i as int]));
        i = i + 1;
    }
}

/// Decodes the piece `cs[lo..hi]` that followed an `&`.
fn decode_piece_of(cs: &Vec<char>, lo: usize, hi: usize) -> (r: Result<String, String>)
    requires
        lo <= hi <= cs.len(),
    ensures
        match (r, decode_piece(cs@.subrange(lo as int, hi as int))) {
            (Ok(a), Ok(b)) => a@ == b,
            (Err(a), Err(b)) => a@ == b,
            _ => false,
        },
{
    let ghost p = cs@.subrange(lo as int, hi as int);
    let j = find_char(cs, lo, hi, ';');
    if j == hi {
        let mut e = String::new();
        e.push('&');
        push_range(&mut e, cs, lo, hi);
        assert(e@ =~= seq!['&'] + p);
        return Err(e);
    }
    assert(p.take(j - lo) =~= cs@.subrange(lo as int, j as int));
    assert(p.skip(j - lo + 1) =~= cs@.subrange(j + 1, hi as int));
    match entity_char_of(cs, lo, j) {
        Some(ch) => {
            let mut t = String::new();
            t.push(ch);
            push_range(&mut t, cs, j + 1, hi);
            assert(t@ =~= seq![ch] + p.skip(j - lo + 1));
            Ok(t)
        },
        None => {
            let mut e = String::new();
            e.push('&');
            push_range(&mut e, cs, lo, j);
            e.push(';');
            assert(e@ =~= seq!['&'] + p.take(j - lo) + seq![';']);
            Err(e)
        },
    }
}

/// Unescapes all valid XML entities in a string.
pub fn unescape(input: &str) -> (result: Result<String, String>)
    ensures
        match (result, unescaped(input@)) {
            (Ok(a), Ok(b)) => a@ == b,
            (Err(a), Err(b)) => a@ == b,
            _ => false,
        },
{
    let cs = chars_of(input);
    let n = cs.len();
    let mut result = String::new();
    let first = find_char(&cs, 0, n, '&');
    push_range(&mut result, &cs, 0, first);
    let mut i = first;
    proof {
        assert(cs@.subrange(0, n as int) =~= cs@);
        assert(cs@.skip(0) =~= cs@);
        lemma_split_step(cs@, 0, first as int);
        let ps = split_on(cs@, '&');
        if first < n {
            assert(ps.drop_first() =~= split_on(cs@.skip(first + 1), '&'));
        } else {
            assert(ps.drop_first() =~= Seq::<Seq<char>>::empty());
        }
    }
    while i < n
        invariant
            cs@ == input@,
            n == cs.len(),
            i <= n,
            i < n ==> cs@[i as int] == '&',
            unescaped(cs@) == prepend(
                result@,
                if i < n {
                    decode_pieces(split_on(cs@.skip(i + 1), '&'))
                } else {
                    Ok(Seq::empty())
                },
            ),
        decreases n - i,
    {
        let start = i + 1;
        let end = find_char(&cs, start, n, '&');
        let ghost piece = cs@.subrange(start as int, end as int);
        let ghost tail = if end < n {
            decode_pieces(split_on(cs@.skip(end + 1), '&'))
        } else {
            Ok(Seq::empty())
        };
        proof {
            lemma_split_step(cs@, start as int, end as int);
            if end < n {
                lemma_decode_pieces_cons(piece, split_on(cs@.skip(end + 1), '&'));
            } else {
                lemma_decode_pieces_cons(piece, Seq::empty());
                assert(decode_pieces(Seq::<Seq<char>>::empty()) == Ok::<Seq<char>, Seq<char>>(Seq::empty()));
            }
        }
        match decode_piece_of(&cs, start, end) {
            Ok(t) => {
                let ghost before = result@;
                result.append(t.as_str());
                proof {
                    lemma_prepend_prepend(before, t@, tail);
                }
                i = end;
            },
            Err(e) => {
                return Err(e);
            },
        }
    }
    assert(result@ + Seq::<char>::empty() =~= result@);
    Ok(result)
}

} // verus!
