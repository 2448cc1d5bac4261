//! Rendering of a `(tag, output ordinal)` pair into a concrete workspace
//! name, and the reverse parse.
//!
//! The output at ordinal 0 keeps the tag unchanged, so its workspace names
//! stay idiomatic for the window manager. Every other output appends the
//! superscript-digit rendering of `ordinal + 1`, which disambiguates the
//! name inside the manager's single flat workspace namespace.

use vstd::prelude::*;

verus! {

/// The superscript rendering of one decimal digit.
pub open spec fn superscript_char(d: int) -> char {
    if d == 0 {
        '\u{2070}'
    } else if d == 1 {
        '\u{00B9}'
    } else if d == 2 {
        '\u{00B2}'
    } else if d == 3 {
        '\u{00B3}'
    } else if d == 4 {
        '\u{2074}'
    } else if d == 5 {
        '\u{2075}'
    } else if d == 6 {
        '\u{2076}'
    } else if d == 7 {
        '\u{2077}'
    } else if d == 8 {
        '\u{2078}'
    } else {
        '\u{2079}'
    }
}

/// Whether `c` is one of the ten superscript digit characters.
pub open spec fn is_superscript_char(c: char) -> bool {
    exists|d: int| 0 <= d < 10 && superscript_char(d) == c
}

/// The decimal value of a superscript digit character.
pub open spec fn superscript_value(c: char) -> int {
    choose|d: int| 0 <= d < 10 && superscript_char(d) == c
}

/// The superscript-digit rendering of `n`, most significant digit first.
pub open spec fn spec_superscript(n: nat) -> Seq<char>
    decreases n,
{
    if n < 10 {
        seq![superscript_char(n as int)]
    } else {
        spec_superscript(n / 10) + seq![superscript_char((n % 10) as int)]
    }
}

/// The number encoded by a sequence of superscript digit characters.
pub open spec fn spec_from_superscript(s: Seq<char>) -> nat
    decreases s.len(),
{
    if s.len() == 0 {
        0
    } else {
        (spec_from_superscript(s.drop_last()) * 10 + superscript_value(s.last())) as nat
    }
}

/// The concrete workspace name for logical tag `tag` on the output at
/// `ordinal`: the tag itself on the first output, otherwise the tag followed
/// by the superscript rendering of `ordinal + 1`.
pub open spec fn spec_workspace_name(tag: Seq<char>, ordinal: nat) -> Seq<char> {
    if ordinal == 0 {
        tag
    } else {
        tag + spec_superscript(ordinal + 1)
    }
}

proof fn lemma_superscript_char_injective(d1: int, d2: int)
    requires
        0 <= d1 < 10,
        0 <= d2 < 10,
        superscript_char(d1) == superscript_char(d2),
    ensures
        d1 == d2,
{
}

/// Every character of a superscript rendering is a superscript digit, and
/// the rendering is never empty.
pub proof fn lemma_superscript_chars(n: nat)
    ensures
        spec_superscript(n).len() >= 1,
        forall|i: int|
            0 <= i < spec_superscript(n).len() ==> is_superscript_char(
                #[trigger] spec_superscript(n)[i],
            ),
    decreases n,
{
    if n < 10 {
        assert(is_superscript_char(superscript_char(n as int)));
    } else {
        lemma_superscript_chars(n / 10);
        assert(is_superscript_char(superscript_char((n % 10) as int)));
    }
}

/// Decoding a superscript rendering gives back the number it was made from.
pub proof fn lemma_superscript_round_trip(n: nat)
    ensures
        spec_from_superscript(spec_superscript(n)) == n,
    decreases n,
{
    if n < 10 {
        let s = spec_superscript(n);
        assert(s.drop_last() =~= Seq::<char>::empty());
        assert(spec_from_superscript(Seq::<char>::empty()) == 0);
        assert(s.last() == superscript_char(n as int));
        assert(is_superscript_char(superscript_char(n as int)));
        lemma_superscript_char_injective(
            n as int,
            superscript_value(superscript_char(n as int)),
        );
        assert(spec_from_superscript(spec_superscript(n)) == n);
    } else {
        lemma_superscript_round_trip(n / 10);
        let s = spec_superscript(n);
        assert(s.drop_last() =~= spec_superscript(n / 10));
        assert(s.last() == superscript_char((n % 10) as int));
        lemma_superscript_char_injective(
            (n % 10) as int,
            superscript_value(superscript_char((n % 10) as int)),
        );
        assert(superscript_value(s.last()) == n % 10);
        vstd::arithmetic::div_mod::lemma_fundamental_div_mod(n as int, 10);
        assert(spec_from_superscript(spec_superscript(n)) == n);
    }
}

/// On the output at ordinal 0, the concrete workspace name is the tag
/// itself.
pub proof fn lemma_name_at_ordinal_zero(tag: Seq<char>)
    ensures
        spec_workspace_name(tag, 0) == tag,
{
}

/// On every other output, the concrete workspace name is the tag followed
/// by the superscript rendering of `ordinal + 1`.
pub proof fn lemma_name_at_later_ordinal(tag: Seq<char>, ordinal: nat)
    requires
        ordinal > 0,
    ensures
        spec_workspace_name(tag, ordinal) == tag + spec_superscript(ordinal + 1),
{
}

/// The first position of the maximal suffix of `s` made of superscript
/// digit characters.
pub open spec fn sup_suffix_start(s: Seq<char>) -> int
    decreases s.len(),
{
    if s.len() == 0 {
        0
    } else if is_superscript_char(s.last()) {
        sup_suffix_start(s.drop_last())
    } else {
        s.len() as int
    }
}

/// The parse of a concrete workspace name back into `(tag, ordinal)`: a
/// name whose maximal superscript suffix is non-empty, leaves a non-empty
/// tag in front, and encodes a number of at least 2 that a machine word can
/// hold, is the tag with ordinal `suffix - 1`; every other name is its own
/// tag at ordinal 0.
pub open spec fn spec_parse_name(s: Seq<char>) -> (Seq<char>, nat) {
    let start = sup_suffix_start(s);
    let v = spec_from_superscript(s.subrange(start, s.len() as int));
    if 0 < start < s.len() && 2 <= v <= usize::MAX {
        (s.subrange(0, start), (v - 1) as nat)
    } else {
        (s, 0)
    }
}

/// Basic facts about the maximal superscript suffix: it lies inside `s`,
/// all of it is superscript digits, and the character just before it, if
/// any, is not one.
pub proof fn lemma_suffix_start_bounds(s: Seq<char>)
    ensures
        0 <= sup_suffix_start(s) <= s.len(),
        forall|i: int|
            sup_suffix_start(s) <= i < s.len() ==> is_superscript_char(#[trigger] s[i]),
        sup_suffix_start(s) > 0 ==> !is_superscript_char(s[sup_suffix_start(s) - 1]),
    decreases s.len(),
{
    if s.len() == 0 {
    } else if is_superscript_char(s.last()) {
        lemma_suffix_start_bounds(s.drop_last());
        assert forall|i: int| sup_suffix_start(s) <= i < s.len() - 1 implies is_superscript_char(
            #[trigger] s[i],
        ) by {
            assert(s[i] == s.drop_last()[i]);
        }
    }
}

/// A position `k` with only superscript digits after it and none just
/// before it is the start of the maximal superscript suffix.
proof fn lemma_suffix_start_characterization(s: Seq<char>, k: int)
    requires
        0 <= k <= s.len(),
        forall|i: int| k <= i < s.len() ==> is_superscript_char(#[trigger] s[i]),
        k > 0 ==> !is_superscript_char(s[k - 1]),
    ensures
        sup_suffix_start(s) == k,
    decreases s.len(),
{
    if s.len() == 0 {
    } else if k == s.len() {
        assert(!is_superscript_char(s.last()));
    } else {
        assert(is_superscript_char(s.last()));
        lemma_suffix_start_characterization(s.drop_last(), k);
    }
}

/// A superscript rendering appended to a string that does not end in a
/// superscript digit is exactly the maximal superscript suffix of the
/// concatenation.
proof fn lemma_suffix_start_append(s: Seq<char>, t: Seq<char>)
    requires
        s.len() > 0,
        !is_superscript_char(s.last()),
        forall|i: int| 0 <= i < t.len() ==> is_superscript_char(#[trigger] t[i]),
    ensures
        sup_suffix_start(s + t) == s.len(),
{
    assert forall|i: int| s.len() <= i < (s + t).len() implies is_superscript_char(
        #[trigger] (s + t)[i],
    ) by {
        assert((s + t)[i] == t[i - s.len()]);
    }
    assert((s + t)[s.len() - 1] == s.last());
    lemma_suffix_start_characterization(s + t, s.len() as int);
}

/// Decoding a value already encoded never loses to a longer suffix: the
/// value of a prefix of a superscript-digit string is at most the value of
/// the whole.
proof fn lemma_from_superscript_prefix_le(s: Seq<char>, j: int)
    requires
        0 <= j <= s.len(),
        forall|i: int| 0 <= i < s.len() ==> is_superscript_char(#[trigger] s[i]),
    ensures
        spec_from_superscript(s.subrange(0, j)) <= spec_from_superscript(s),
    decreases s.len(),
{
    if j == s.len() {
        assert(s.subrange(0, j) =~= s);
    } else {
        assert(s.drop_last() =~= s.subrange(0, s.len() - 1));
        lemma_from_superscript_prefix_le(s.drop_last(), j);
        assert(s.drop_last().subrange(0, j) =~= s.subrange(0, j));
        assert(is_superscript_char(s.last()));
        assert(0 <= superscript_value(s.last()) < 10);
        assert(spec_from_superscript(s.drop_last()) <= spec_from_superscript(s));
    }
}

/// Parsing inverts rendering: for a non-empty tag that does not end in a
/// superscript digit, the concrete workspace name parses back to the same
/// tag and ordinal.
pub proof fn lemma_parse_name_round_trip(tag: Seq<char>, ordinal: nat)
    requires
        tag.len() > 0,
        !is_superscript_char(tag.last()),
        ordinal + 1 <= usize::MAX,
    ensures
        spec_parse_name(spec_workspace_name(tag, ordinal)).0 == tag,
        spec_parse_name(spec_workspace_name(tag, ordinal)).1 == ordinal,
{
    if ordinal == 0 {
        lemma_suffix_start_characterization(tag, tag.len() as int);
    } else {
        let sup = spec_superscript(ordinal + 1);
        let name = tag + sup;
        lemma_superscript_chars(ordinal + 1);
        lemma_suffix_start_append(tag, sup);
        assert(name.subrange(tag.len() as int, name.len() as int) =~= sup);
        assert(name.subrange(0, tag.len() as int) =~= tag);
        lemma_superscript_round_trip(ordinal + 1);
    }
}

/// The superscript rendering of one decimal digit, as a string slice.
fn superscript_digit(d: u8) -> (r: &'static str)
    requires
        d < 10,
    ensures
        r@ =~= seq![superscript_char(d as int)],
{
    proof {
        reveal_strlit("\u{2070}");
        reveal_strlit("\u{00B9}");
        reveal_strlit("\u{00B2}");
        reveal_strlit("\u{00B3}");
        reveal_strlit("\u{2074}");
        reveal_strlit("\u{2075}");
        reveal_strlit("\u{2076}");
        reveal_strlit("\u{2077}");
        reveal_strlit("\u{2078}");
        reveal_strlit("\u{2079}");
    }
    if d == 0 {
        "\u{2070}"
    } else if d == 1 {
        "\u{00B9}"
    } else if d == 2 {
        "\u{00B2}"
    } else if d == 3 {
        "\u{00B3}"
    } else if d == 4 {
        "\u{2074}"
    } else if d == 5 {
        "\u{2075}"
    } else if d == 6 {
        "\u{2076}"
    } else if d == 7 {
        "\u{2077}"
    } else if d == 8 {
        "\u{2078}"
    } else {
        "\u{2079}"
    }
}

/// Appends the superscript rendering of `n` to `out`.
fn push_superscript(out: &mut String, n: usize)
    ensures
        final(out)@ == old(out)@ + spec_superscript(n as nat),
    decreases n,
{
    if n >= 10 {
        push_superscript(out, n / 10);
        let d = superscript_digit((n % 10) as u8);
        out.append(d);
        proof {
            assert(out@ =~= old(out)@ + spec_superscript(n as nat));
        }
    } else {
        let d = superscript_digit(n as u8);
        out.append(d);
        proof {
            assert(out@ =~= old(out)@ + spec_superscript(n as nat));
        }
    }
}

/// Whether `c` is one of the ten superscript digit characters.
fn exec_is_superscript(c: char) -> (b: bool)
    ensures
        b == is_superscript_char(c),
{
    let b = c == '\u{2070}' || c == '\u{00B9}' || c == '\u{00B2}' || c == '\u{00B3}' || c
        == '\u{2074}' || c == '\u{2075}' || c == '\u{2076}' || c == '\u{2077}' || c == '\u{2078}'
        || c == '\u{2079}';
    proof {
        if b {
            assert(exists|d: int| 0 <= d < 10 && superscript_char(d) == c) by {
                if c == '\u{2070}' {
                    assert(superscript_char(0) == c);
                } else if c == '\u{00B9}' {
                    assert(superscript_char(1) == c);
                } else if c == '\u{00B2}' {
                    assert(superscript_char(2) == c);
                } else if c == '\u{00B3}' {
                    assert(superscript_char(3) == c);
                } else if c == '\u{2074}' {
                    assert(superscript_char(4) == c);
                } else if c == '\u{2075}' {
                    assert(superscript_char(5) == c);
                } else if c == '\u{2076}' {
                    assert(superscript_char(6) == c);
                } else if c == '\u{2077}' {
                    assert(superscript_char(7) == c);
                } else if c == '\u{2078}' {
                    assert(superscript_char(8) == c);
                } else {
                    assert(superscript_char(9) == c);
                }
            }
        } else {
            assert forall|d: int| 0 <= d < 10 implies superscript_char(d) != c by {}
        }
    }
    b
}

/// The decimal value of one superscript digit character.
fn superscript_digit_value(c: char) -> (r: u8)
    requires
        is_superscript_char(c),
    ensures
        r < 10,
        r as int == superscript_value(c),
{
    proof {
        let d = superscript_value(c);
        assert(0 <= d < 10 && superscript_char(d) == c);
    }
    if c == '\u{2070}' {
        0
    } else if c == '\u{00B9}' {
        1
    } else if c == '\u{00B2}' {
        2
    } else if c == '\u{00B3}' {
        3
    } else if c == '\u{2074}' {
        4
    } else if c == '\u{2075}' {
        5
    } else if c == '\u{2076}' {
        6
    } else if c == '\u{2077}' {
        7
    } else if c == '\u{2078}' {
        8
    } else {
        9
    }
}

/// The first position of the maximal superscript suffix of `name`.
fn find_suffix_start(name: &str) -> (start: usize)
    ensures
        start as int == sup_suffix_start(name@),
        start <= name@.len(),
{
    let len = name.unicode_len();
    let mut start = len;
    loop
        invariant
            0 <= start <= len,
            len == name@.len(),
            forall|j: int| start <= j < len ==> is_superscript_char(#[trigger] name@[j]),
        decreases start,
    {
        if start == 0 {
            proof {
                lemma_suffix_start_characterization(name@, 0);
            }
            return 0;
        }
        let c = name.get_char(start - 1);
        if !exec_is_superscript(c) {
            proof {
                lemma_suffix_start_characterization(name@, start as int);
            }
            return start;
        }
        start = start - 1;
    }
}

/// Splits a concrete workspace name back into its logical tag and output
/// ordinal, as `spec_parse_name` describes: a name carrying a superscript
/// suffix that encodes `ordinal + 1` parses to `(tag, ordinal)`, any other
/// name to itself at ordinal 0.
pub fn parse_workspace_name(name: &str) -> (r: (String, usize))
    ensures
        r.0@ == spec_parse_name(name@).0,
        r.1 as nat == spec_parse_name(name@).1,
{
    let len = name.unicode_len();
    let start = find_suffix_start(name);
    proof {
        lemma_suffix_start_bounds(name@);
    }
    if start == 0 || start >= len {
        return (name.to_owned(), 0);
    }
    let ghost suffix = name@.subrange(start as int, len as int);
    proof {
        assert forall|i: int| 0 <= i < suffix.len() implies is_superscript_char(
            #[trigger] suffix[i],
        ) by {
            assert(suffix[i] == name@[start + i]);
        }
    }
    let mut val: usize = 0;
    let mut i: usize = start;
    proof {
        assert(name@.subrange(start as int, start as int) =~= Seq::<char>::empty());
    }
    while i < len
        invariant
            start <= i <= len,
            0 < start < len,
            len == name@.len(),
            start as int == sup_suffix_start(name@),
            suffix == name@.subrange(start as int, len as int),
            forall|j: int| 0 <= j < suffix.len() ==> is_superscript_char(#[trigger] suffix[j]),
            forall|j: int| start <= j < len ==> is_superscript_char(#[trigger] name@[j]),
            val as nat == spec_from_superscript(name@.subrange(start as int, i as int)),
        decreases len - i,
    {
        let c = name.get_char(i);
        let d = superscript_digit_value(c);
        let ghost prefix = name@.subrange(start as int, i as int);
        let ghost next_prefix = name@.subrange(start as int, i + 1 as int);
        proof {
            assert(next_prefix.drop_last() =~= prefix);
            assert(next_prefix.last() == name@[i as int]);
            assert(spec_from_superscript(next_prefix) == val * 10 + d);
        }
        let stepped = match val.checked_mul(10) {
            Some(m) => m.checked_add(d as usize),
            None => None,
        };
        match stepped {
            Some(v2) => {
                val = v2;
                i = i + 1;
            },
            None => {
                proof {
                    assert(next_prefix =~= suffix.subrange(0, i + 1 - start as int));
                    lemma_from_superscript_prefix_le(suffix, i + 1 - start as int);
                    assert(spec_from_superscript(suffix) > usize::MAX);
                }
                return (name.to_owned(), 0);
            },
        }
    }
    proof {
        assert(name@.subrange(start as int, i as int) =~= suffix);
    }
    if val < 2 {
        return (name.to_owned(), 0);
    }
    let tag = name.substring_char(0, start);
    proof {
        assert(tag@ == name@.subrange(0, start as int));
    }
    (tag.to_owned(), val - 1)
}

/// The concrete workspace name for `tag` on the output at `output_index`.
pub fn get_workspace_name(tag: &str, output_index: usize) -> (r: String)
    requires
        output_index < usize::MAX,
    ensures
        r@ == spec_workspace_name(tag@, output_index as nat),
{
    let mut r = tag.to_owned();
    if output_index > 0 {
        push_superscript(&mut r, output_index + 1);
    }
    r
}

} // verus!
