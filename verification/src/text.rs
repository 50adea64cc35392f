use vstd::prelude::*;

verus! {

/// `String::push` from std: appends one character at the end of the string.
#[verifier::external_body]
pub(crate) fn push_char(s: &mut String, c: char)
    ensures
        final(s)@ == old(s)@.push(c),
{
    s.push(c)
}

/// A string holding exactly the given characters, in order.
pub fn chars_to_string(chars: &Vec<char>) -> (res: String)
    ensures
        res@ == chars@,
{
    let mut res = String::new();
    let mut i: usize = 0;
    while i < chars.len()
        invariant
            i <= chars.len(),
            res@ == chars@.take(i as int),
        decreases chars.len() - i,
    {
        push_char(&mut res, chars[i]);
        i += 1;
        assert(res@ =~= chars@.take(i as int));
    }
    assert(chars@.take(i as int) =~= chars@);
    res
}

/// The decimal digit character for a value below ten.
pub open spec fn digit_char(d: nat) -> char {
    ((d + 48) as u32) as char
}

/// The decimal representation of `n`, without leading zeros ("0" for zero).
pub open spec fn decimal(n: nat) -> Seq<char>
    decreases n,
{
    if n < 10 {
        seq![digit_char(n)]
    } else {
        decimal(n / 10).push(digit_char(n % 10))
    }
}

fn digit_to_char(d: u32) -> (c: char)
    requires
        d < 10,
    ensures
        c == digit_char(d as nat),
{
    match d {
        0 => '0',
        1 => '1',
        2 => '2',
        3 => '3',
        4 => '4',
        5 => '5',
        6 => '6',
        7 => '7',
        8 => '8',
        _ => '9',
    }
}

/// `n` written in decimal, as `u32::to_string` writes it.
pub fn decimal_string(n: u32) -> (res: String)
    ensures
        res@ == decimal(n as nat),
    decreases n,
{
    if n < 10 {
        let mut s = String::new();
        push_char(&mut s, digit_to_char(n));
        assert(s@ =~= decimal(n as nat));
        s
    } else {
        let mut s = decimal_string(n / 10);
        push_char(&mut s, digit_to_char(n % 10));
        s
    }
}

/// The words joined by single spaces, as `join(" ")` joins them.
pub open spec fn join_words(words: Seq<Seq<char>>) -> Seq<char>
    decreases words.len(),
{
    if words.len() == 0 {
        seq![]
    } else if words.len() == 1 {
        words[0]
    } else {
        join_words(words.drop_last()) + seq![' '] + words.last()
    }
}

/// The character sequences of a sequence of strings.
pub open spec fn strings_view(v: Seq<String>) -> Seq<Seq<char>> {
    v.map_values(|s: String| s@)
}

/// The strings joined by single spaces.
pub fn join_with_spaces(words: &Vec<String>) -> (res: String)
    ensures
        res@ == join_words(strings_view(words@)),
{
    let mut res = String::new();
    let mut i: usize = 0;
    proof {
        reveal_strlit(" ");
    }
    while i < words.len()
        invariant
            i <= words.len(),
            res@ == join_words(strings_view(words@).take(i as int)),
            " "@ == seq![' '],
        decreases words.len() - i,
    {
        let ghost ws = strings_view(words@);
        assert(ws.take(i + 1).drop_last() =~= ws.take(i as int));
        if i > 0 {
            res.append(" ");
        }
        res.append(words[i].as_str());
        i += 1;
        assert(res@ =~= join_words(ws.take(i as int)));
    }
    assert(strings_view(words@).take(i as int) =~= strings_view(words@));
    res
}

/// One word is written as it is; each further word follows the text so far after one space.
pub proof fn lemma_join_words(a: Seq<char>, b: Seq<char>, c: Seq<char>)
    ensures
        join_words(Seq::<Seq<char>>::empty()) == Seq::<char>::empty(),
        join_words(seq![a]) == a,
        join_words(seq![a, b]) == a + seq![' '] + b,
        join_words(seq![a, b, c]) == a + seq![' '] + b + seq![' '] + c,
{
    assert(seq![a][0] == a);
    assert(seq![a, b].drop_last() =~= seq![a]);
    assert(seq![a, b].last() == b);
    assert(join_words(seq![a, b]) == join_words(seq![a]) + seq![' '] + b);
    assert(seq![a, b, c].drop_last() =~= seq![a, b]);
    assert(seq![a, b, c].last() == c);
    assert(join_words(seq![a, b, c]) == join_words(seq![a, b]) + seq![' '] + c);
}

} // verus!
