use vstd::prelude::*;

verus! {

/// The characters of `text` in lower case, as `str::to_lowercase` gives them.
pub uninterp spec fn lowercase(text: Seq<char>) -> Seq<char>;

/// `str::to_lowercase`: returns the lowercase equivalent of the string, by
/// Unicode's `Lowercase` mapping; the result depends on the text alone.
pub assume_specification[ str::to_lowercase ](text: &str) -> (res: String)
    ensures
        res@ == lowercase(text@),
;

/// `String::push`: appends the given character to the end of the string.
pub assume_specification[ String::push ](text: &mut String, ch: char)
    ensures
        final(text)@ == old(text)@.push(ch),
;

/// `String::push_str`: appends the given string slice to the end of the string.
pub assume_specification[ String::push_str ](text: &mut String, string: &str)
    ensures
        final(text)@ == old(text)@ + string@,
;

/// The character of decimal digit `digit`.
pub open spec fn digit_char(digit: nat) -> char {
    ('0' as nat + digit) as char
}

/// The decimal numeral of `n`, without sign or leading zeros.
pub open spec fn decimal_chars(n: nat) -> Seq<char>
    decreases n,
{
    if n < 10 {
        seq![digit_char(n)]
    } else {
        decimal_chars(n / 10).push(digit_char(n % 10))
    }
}

/// The character of the decimal digit `digit`.
fn digit(value: u16) -> (res: char)
    requires
        value < 10,
    ensures
        res == digit_char(value as nat),
{
    ((48 + value) as u8) as char
}

/// Appends the decimal numeral of `n` to `text`, as `n.to_string()` spells it.
fn push_decimal(text: &mut String, n: u16)
    ensures
        final(text)@ == old(text)@ + decimal_chars(n as nat),
    decreases n,
{
    if n >= 10 {
        push_decimal(text, n / 10);
    }
    text.push(digit(n % 10));
    assert(old(text)@ + decimal_chars(n as nat) =~= text@);
}

/// Each identifier, lowercased, behind an underscore.
pub open spec fn snake_segments(idents: Seq<Seq<char>>) -> Seq<char>
    decreases idents.len(),
{
    if idents.len() == 0 {
        Seq::empty()
    } else {
        snake_segments(idents.drop_last()).push('_') + lowercase(idents.last())
    }
}

/// The name built from `idents` and the running number `index`:
/// `_first_second_..._index`, every identifier lowercased.
pub open spec fn snake_case_name(idents: Seq<Seq<char>>, index: u16) -> Seq<char> {
    snake_segments(idents).push('_') + decimal_chars(index as nat)
}

/// Joins the identifier texts `idents` into one lowercase name behind
/// underscores and ends it with the running number `index`, which keeps
/// names made from the same identifiers apart.
pub fn idents_to_snake_case(idents: &[String], index: u16) -> (res: String)
    ensures
        res@ == snake_case_name(idents@.map_values(|ident: String| ident@), index),
{
    let ghost texts = idents@.map_values(|ident: String| ident@);
    let mut index_str = String::new();
    push_decimal(&mut index_str, index);

    let mut segments: Vec<String> = Vec::new();
    let mut i: usize = 0;
    while i < idents.len()
        invariant
            i <= idents@.len(),
            texts == idents@.map_values(|ident: String| ident@),
            segments@.len() == i,
            forall|j: int| 0 <= j < i ==> #[trigger] segments@[j]@ == lowercase(texts[j]),
        decreases idents@.len() - i,
    {
        segments.push(idents[i].as_str().to_lowercase());
        i = i + 1;
    }

    let mut name = String::new();
    let mut k: usize = 0;
    while k < segments.len()
        invariant
            k <= segments@.len(),
            segments@.len() == texts.len(),
            texts == idents@.map_values(|ident: String| ident@),
            forall|j: int| 0 <= j < segments@.len() ==> #[trigger] segments@[j]@ == lowercase(texts[j]),
            name@ == snake_segments(texts.take(k as int)),
        decreases segments@.len() - k,
    {
        name.push('_');
        name.push_str(segments[k].as_str());
        assert(texts.take(k + 1).drop_last() =~= texts.take(k as int));
        k = k + 1;
    }
    assert(texts.take(texts.len() as int) =~= texts);
    name.push('_');
    name.push_str(index_str.as_str());
    name
}

proof fn lemma_decimal_digits(n: nat)
    ensures
        decimal_chars(n).len() >= 1,
        n < 10 <==> decimal_chars(n).len() == 1,
        forall|i: int| 0 <= i < decimal_chars(n).len() ==> #[trigger] decimal_chars(n)[i] != '_',
    decreases n,
{
    if n >= 10 {
        lemma_decimal_digits(n / 10);
        let earlier = decimal_chars(n / 10);
        assert forall|i: int| 0 <= i < decimal_chars(n).len() implies #[trigger] decimal_chars(n)[i] != '_' by {
            if i < earlier.len() {
                assert(decimal_chars(n)[i] == earlier[i]);
            }
        }
    }
}

proof fn lemma_decimal_injective(a: nat, b: nat)
    requires
        decimal_chars(a) == decimal_chars(b),
    ensures
        a == b,
    decreases a,
{
    lemma_decimal_digits(a);
    lemma_decimal_digits(b);
    let last_a = decimal_chars(a).last();
    let last_b = decimal_chars(b).last();
    assert(last_a == digit_char(a % 10));
    assert(last_b == digit_char(b % 10));
    assert((a % 10) == (b % 10));
    if a >= 10 {
        assert(decimal_chars(a / 10) =~= decimal_chars(a).drop_last());
        assert(decimal_chars(b / 10) =~= decimal_chars(b).drop_last());
        lemma_decimal_injective(a / 10, b / 10);
    }
}

/// Names made with different running numbers differ, whatever identifiers
/// they are made from: the part after the last underscore is the number.
pub proof fn lemma_names_differ_by_number(first: Seq<Seq<char>>, second: Seq<Seq<char>>, a: u16, b: u16)
    requires
        a != b,
    ensures
        snake_case_name(first, a) != snake_case_name(second, b),
{
    let x = snake_case_name(first, a);
    let y = snake_case_name(second, b);
    let da = decimal_chars(a as nat);
    let db = decimal_chars(b as nat);
    lemma_decimal_digits(a as nat);
    lemma_decimal_digits(b as nat);
    if x == y {
        let len = x.len();
        if da.len() == db.len() {
            assert(da =~= x.skip(len - da.len()));
            assert(db =~= y.skip(len - db.len()));
            lemma_decimal_injective(a as nat, b as nat);
        } else if da.len() < db.len() {
            let p = len - da.len() - 1;
            assert(x[p] == '_');
            assert(y[p] == db[p - (len - db.len())]);
        } else {
            let p = len - db.len() - 1;
            assert(y[p] == '_');
            assert(x[p] == da[p - (len - da.len())]);
        }
    }
}

/// The length of the first `count` identifiers of a name, each lowercased and
/// with the underscore in front of it.
pub open spec fn ident_offset(idents: Seq<Seq<char>>, count: int) -> int
    decreases count,
{
    if count <= 0 {
        0
    } else {
        ident_offset(idents, count - 1) + lowercase(idents[count - 1]).len() + 1
    }
}

/// The number that the decimal digits `digits` spell.
pub open spec fn numeral_value(digits: Seq<char>) -> int
    decreases digits.len(),
{
    if digits.len() == 0 {
        0
    } else {
        numeral_value(digits.drop_last()) * 10 + (digits.last() as int - '0' as int)
    }
}

proof fn lemma_offset_of_prefix(idents: Seq<Seq<char>>, prefix: Seq<Seq<char>>, count: int)
    requires
        0 <= count <= prefix.len() <= idents.len(),
        forall|i: int| 0 <= i < prefix.len() ==> prefix[i] == idents[i],
    ensures
        ident_offset(idents, count) == ident_offset(prefix, count),
    decreases count,
{
    if count > 0 {
        lemma_offset_of_prefix(idents, prefix, count - 1);
    }
}

proof fn lemma_segments_hold_idents(idents: Seq<Seq<char>>)
    ensures
        snake_segments(idents).len() == ident_offset(idents, idents.len() as int),
        forall|i: int| 0 <= i < idents.len() ==> #[trigger] snake_segments(idents).subrange(
            ident_offset(idents, i),
            ident_offset(idents, i + 1),
        ) == seq!['_'] + lowercase(idents[i]),
    decreases idents.len(),
{
    if idents.len() > 0 {
        let prefix = idents.drop_last();
        let n = prefix.len() as int;
        lemma_segments_hold_idents(prefix);
        lemma_offset_of_prefix(idents, prefix, n);
        let segments = snake_segments(idents);
        assert forall|i: int| 0 <= i < idents.len() implies #[trigger] segments.subrange(
            ident_offset(idents, i),
            ident_offset(idents, i + 1),
        ) == seq!['_'] + lowercase(idents[i]) by {
            if i < n {
                lemma_offset_of_prefix(idents, prefix, i);
                lemma_offset_of_prefix(idents, prefix, i + 1);
                lemma_offset_below(prefix, n);
                assert(0 <= ident_offset(prefix, i) <= ident_offset(prefix, i + 1) <= ident_offset(prefix, n));
                assert(segments.subrange(ident_offset(idents, i), ident_offset(idents, i + 1))
                    =~= snake_segments(prefix).subrange(ident_offset(prefix, i), ident_offset(prefix, i + 1)));
            } else {
                assert(segments.subrange(ident_offset(idents, i), ident_offset(idents, i + 1))
                    =~= seq!['_'] + lowercase(idents[i]));
            }
        }
    }
}

/// A name holds every identifier in order, each lowercased behind an
/// underscore at the place that the identifiers before it take up, and ends
/// with an underscore and the running number.
pub proof fn lemma_name_holds_every_ident(idents: Seq<Seq<char>>, index: u16)
    ensures
        snake_case_name(idents, index).len() == ident_offset(idents, idents.len() as int) + 1
            + decimal_chars(index as nat).len(),
        forall|i: int| 0 <= i < idents.len() ==> #[trigger] snake_case_name(idents, index).subrange(
            ident_offset(idents, i),
            ident_offset(idents, i + 1),
        ) == seq!['_'] + lowercase(idents[i]),
        snake_case_name(idents, index).subrange(
            ident_offset(idents, idents.len() as int),
            snake_case_name(idents, index).len() as int,
        ) == seq!['_'] + decimal_chars(index as nat),
{
    lemma_segments_hold_idents(idents);
    let name = snake_case_name(idents, index);
    let segments = snake_segments(idents);
    assert forall|i: int| 0 <= i < idents.len() implies #[trigger] name.subrange(
        ident_offset(idents, i),
        ident_offset(idents, i + 1),
    ) == seq!['_'] + lowercase(idents[i]) by {
        lemma_offset_of_prefix(idents, idents, i);
        lemma_offset_mono(idents, i + 1);
        assert(name.subrange(ident_offset(idents, i), ident_offset(idents, i + 1))
            =~= segments.subrange(ident_offset(idents, i), ident_offset(idents, i + 1)));
    }
    assert(name.subrange(ident_offset(idents, idents.len() as int), name.len() as int)
        =~= seq!['_'] + decimal_chars(index as nat));
}

proof fn lemma_offset_mono(idents: Seq<Seq<char>>, count: int)
    requires
        0 <= count <= idents.len(),
    ensures
        forall|c: int| 0 <= c <= count ==> 0 <= #[trigger] ident_offset(idents, c) <= ident_offset(idents, count),
        ident_offset(idents, count) <= ident_offset(idents, idents.len() as int),
    decreases idents.len() - count,
{
    if count < idents.len() {
        lemma_offset_mono(idents, count + 1);
    }
    lemma_offset_below(idents, count);
}

proof fn lemma_offset_below(idents: Seq<Seq<char>>, count: int)
    requires
        0 <= count,
    ensures
        forall|c: int| 0 <= c <= count ==> 0 <= #[trigger] ident_offset(idents, c) <= ident_offset(idents, count),
    decreases count,
{
    if count > 0 {
        lemma_offset_below(idents, count - 1);
        assert(ident_offset(idents, count - 1) <= ident_offset(idents, count));
    }
}

/// The numeral of `n` is made of decimal digits, spells `n`, and has no
/// leading zero.
pub proof fn lemma_decimal_spells_number(n: nat)
    ensures
        decimal_chars(n).len() >= 1,
        numeral_value(decimal_chars(n)) == n,
        forall|i: int| 0 <= i < decimal_chars(n).len() ==> '0' as int <= (#[trigger] decimal_chars(n)[i]) as int
            <= '9' as int,
        decimal_chars(n).len() > 1 ==> decimal_chars(n)[0] != '0',
    decreases n,
{
    if n >= 10 {
        lemma_decimal_spells_number(n / 10);
        lemma_decimal_digits(n / 10);
        let earlier = decimal_chars(n / 10);
        assert(decimal_chars(n).drop_last() =~= earlier);
        assert(digit_char(n % 10) as int == '0' as int + n % 10);
        assert(n == (n / 10) * 10 + n % 10);
        assert forall|i: int| 0 <= i < decimal_chars(n).len() implies '0' as int <= (#[trigger] decimal_chars(n)[i]) as int
            <= '9' as int by {
            if i < earlier.len() {
                assert(decimal_chars(n)[i] == earlier[i]);
            }
        }
        assert(decimal_chars(n)[0] == earlier[0]);
        if earlier.len() == 1 {
            assert(earlier[0] == digit_char(n / 10));
            assert(digit_char(n / 10) as int == '0' as int + n / 10);
        }
        assert(decimal_chars(n).last() == digit_char(n % 10));
        assert(numeral_value(decimal_chars(n)) == numeral_value(earlier) * 10 + (n % 10));
    } else {
        assert(digit_char(n) as int == '0' as int + n);
        assert(decimal_chars(n).drop_last() =~= Seq::<char>::empty());
        assert(numeral_value(decimal_chars(n)) == numeral_value(Seq::<char>::empty()) * 10 + n);
    }
}

/// A path made of plain identifier segments, such as `::relm4` or `Self`.
pub struct SimplePath {
    /// Whether the path starts with `::`.
    pub leading_colon: bool,
    /// The identifiers of the segments, none with generic arguments.
    pub segments: Vec<String>,
}

/// The path `::relm4`, under which generated code reaches the library.
pub fn default_relm4_path() -> (res: SimplePath)
    ensures
        res.leading_colon,
        res.segments@.len() == 1,
        res.segments@[0]@ == "relm4"@,
{
    let mut segments: Vec<String> = Vec::new();
    segments.push(String::from_str("relm4"));
    SimplePath { leading_colon: true, segments }
}

/// The type `Self`, a path of that single segment without a qualified self
/// type, for the model of a component.
pub fn self_type() -> (res: SimplePath)
    ensures
        !res.leading_colon,
        res.segments@.len() == 1,
        res.segments@[0]@ == "Self"@,
{
    let mut segments: Vec<String> = Vec::new();
    segments.push(String::from_str("Self"));
    SimplePath { leading_colon: false, segments }
}

} // verus!
