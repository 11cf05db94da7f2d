use vstd::prelude::*;
use vstd::string::StringExecFns;
use vstd::string::StrSliceExecFns;

verus! {

/// The decimal digit character for `d` in `0..=9`.
pub open spec fn digit_char(d: int) -> char {
    if d == 0 {
        '0'
    } else if d == 1 {
        '1'
    } else if d == 2 {
        '2'
    } else if d == 3 {
        '3'
    } else if d == 4 {
        '4'
    } else if d == 5 {
        '5'
    } else if d == 6 {
        '6'
    } else if d == 7 {
        '7'
    } else if d == 8 {
        '8'
    } else {
        '9'
    }
}

/// The decimal digits of `n`, most significant first, no leading zeros
/// (a single `'0'` for zero).
pub open spec fn dec_digits(n: nat) -> Seq<char>
    decreases n,
{
    if n < 10 {
        seq![digit_char(n as int)]
    } else {
        dec_digits(n / 10).push(digit_char((n % 10) as int))
    }
}

fn digit_str(d: u64) -> (r: &'static str)
    requires
        d < 10,
    ensures
        r@ == seq![digit_char(d as int)],
{
    let r: &'static str = match d {
        0 => "0",
        1 => "1",
        2 => "2",
        3 => "3",
        4 => "4",
        5 => "5",
        6 => "6",
        7 => "7",
        8 => "8",
        _ => "9",
    };
    proof {
        reveal_strlit("0");
        reveal_strlit("1");
        reveal_strlit("2");
        reveal_strlit("3");
        reveal_strlit("4");
        reveal_strlit("5");
        reveal_strlit("6");
        reveal_strlit("7");
        reveal_strlit("8");
        reveal_strlit("9");
        assert(r@ =~= seq![digit_char(d as int)]);
    }
    r
}

/// Appends the decimal representation of `n` to `s`.
pub fn push_decimal(s: &mut String, n: u64)
    ensures
        final(s)@ == old(s)@ + dec_digits(n as nat),
    decreases n,
{
    if n >= 10 {
        push_decimal(s, n / 10);
        s.append(digit_str(n % 10));
        proof {
            assert(final(s)@ =~= old(s)@ + dec_digits(n as nat));
        }
    } else {
        s.append(digit_str(n));
        proof {
            assert(final(s)@ =~= old(s)@ + dec_digits(n as nat));
        }
    }
}

/// Whether `c` occurs in `s`.
pub open spec fn has_char(s: Seq<char>, c: char) -> bool {
    exists|j: int| 0 <= j < s.len() && s[j] == c
}

/// Whether the character `c` occurs in `s`.
pub fn contains_char(s: &str, c: char) -> (r: bool)
    ensures
        r == has_char(s@, c),
{
    let n = s.unicode_len();
    let mut i: usize = 0;
    while i < n
        invariant
            i <= n == s@.len(),
            forall|j: int| 0 <= j < i ==> s@[j] != c,
        decreases n - i,
    {
        if s.get_char(i) == c {
            return true;
        }
        i = i + 1;
    }
    false
}

/// The pieces of `s` between occurrences of `sep`, in order. There is
/// always at least one piece; consecutive separators and separators at
/// either end yield empty pieces, as `str::split` does.
pub open spec fn split_chars(s: Seq<char>, sep: char) -> Seq<Seq<char>>
    decreases s.len(),
{
    if s.len() == 0 {
        seq![Seq::<char>::empty()]
    } else if s[0] == sep {
        seq![Seq::<char>::empty()] + split_chars(s.skip(1), sep)
    } else {
        let rest = split_chars(s.skip(1), sep);
        rest.update(0, seq![s[0]] + rest[0])
    }
}

pub proof fn lemma_split_chars_len(s: Seq<char>, sep: char)
    ensures
        split_chars(s, sep).len() >= 1,
    decreases s.len(),
{
    if s.len() != 0 {
        lemma_split_chars_len(s.skip(1), sep);
    }
}

/// Splitting a string whose first separator stands at `k` yields the
/// prefix before `k` and then the split of what follows `k`.
proof fn lemma_split_chars_at(s: Seq<char>, sep: char, k: int)
    requires
        0 <= k < s.len(),
        s[k] == sep,
        forall|j: int| 0 <= j < k ==> s[j] != sep,
    ensures
        split_chars(s, sep) == seq![s.take(k)] + split_chars(s.skip(k + 1), sep),
    decreases k,
{
    if k == 0 {
        assert(seq![s.take(0)] + split_chars(s.skip(1), sep) =~~= seq![Seq::<char>::empty()]
            + split_chars(s.skip(1), sep));
    } else {
        let t = s.skip(1);
        assert(t[k - 1] == sep);
        assert(forall|j: int| 0 <= j < k - 1 ==> t[j] != sep);
        lemma_split_chars_at(t, sep, k - 1);
        lemma_split_chars_len(t.skip(k), sep);
        assert(t.take(k - 1) =~= s.take(k).skip(1));
        assert(seq![s[0]] + t.take(k - 1) =~= s.take(k));
        assert(t.skip(k) =~= s.skip(k + 1));
        let rest = split_chars(t, sep);
        assert(rest == seq![t.take(k - 1)] + split_chars(t.skip(k), sep));
        assert(rest.update(0, seq![s[0]] + rest[0]) =~~= seq![s.take(k)] + split_chars(
            s.skip(k + 1),
            sep,
        ));
    }
}

/// Splitting a string free of the separator yields that string alone.
proof fn lemma_split_chars_none(s: Seq<char>, sep: char)
    requires
        forall|j: int| 0 <= j < s.len() ==> s[j] != sep,
    ensures
        split_chars(s, sep) == seq![s],
    decreases s.len(),
{
    if s.len() == 0 {
        assert(seq![Seq::<char>::empty()] =~~= seq![s]);
    } else {
        lemma_split_chars_none(s.skip(1), sep);
        let rest = split_chars(s.skip(1), sep);
        assert(rest.update(0, seq![s[0]] + rest[0]) =~~= seq![s]);
    }
}

/// Splits `s` at every occurrence of `sep`, as `str::split` does.
pub fn split_str(s: &str, sep: char) -> (parts: Vec<String>)
    ensures
        parts@.map_values(|p: String| p@) == split_chars(s@, sep),
{
    let n = s.unicode_len();
    let mut parts: Vec<String> = Vec::new();
    let mut start: usize = 0;
    let mut i: usize = 0;
    proof {
        assert(s@.skip(0) =~= s@);
        assert(parts@.map_values(|p: String| p@) =~= Seq::<Seq<char>>::empty());
        assert(Seq::<Seq<char>>::empty() + split_chars(s@, sep) =~= split_chars(s@, sep));
    }
    while i < n
        invariant
            start <= i <= n == s@.len(),
            forall|j: int| start <= j < i ==> s@[j] != sep,
            parts@.map_values(|p: String| p@) + split_chars(s@.skip(start as int), sep)
                == split_chars(s@, sep),
        decreases n - i,
    {
        if s.get_char(i) == sep {
            let piece = s.substring_char(start, i);
            proof {
                let t = s@.skip(start as int);
                assert(t[i - start] == sep);
                assert(forall|j: int| 0 <= j < i - start ==> t[j] != sep);
                lemma_split_chars_at(t, sep, i - start);
                assert(t.take(i - start) =~= s@.subrange(start as int, i as int));
                assert(t.skip(i - start + 1) =~= s@.skip(i + 1));
            }
            let ghost old_parts = parts@;
            parts.push(String::from_str(piece));
            proof {
                assert(parts@.map_values(|p: String| p@) =~= old_parts.map_values(
                    |p: String| p@,
                ).push(piece@));
                assert(old_parts.map_values(|p: String| p@).push(piece@) + split_chars(
                    s@.skip(i + 1),
                    sep,
                ) =~= old_parts.map_values(|p: String| p@) + split_chars(s@.skip(start as int), sep));
            }
            start = i + 1;
        }
        i = i + 1;
    }
    let piece = s.substring_char(start, n);
    proof {
        let t = s@.skip(start as int);
        assert(forall|j: int| 0 <= j < t.len() ==> t[j] != sep);
        lemma_split_chars_none(t, sep);
        assert(t =~= s@.subrange(start as int, n as int));
    }
    let ghost old_parts = parts@;
    parts.push(String::from_str(piece));
    proof {
        assert(parts@.map_values(|p: String| p@) =~= old_parts.map_values(|p: String| p@).push(
            piece@,
        ));
        assert(old_parts.map_values(|p: String| p@).push(piece@) =~= old_parts.map_values(
            |p: String| p@,
        ) + split_chars(s@.skip(start as int), sep));
    }
    parts
}

} // verus!
