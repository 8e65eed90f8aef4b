//! Typing on the keyboard of a virtual machine.

use vstd::prelude::*;
use vstd::string::*;
use crate::lines::chars_of;

verus! {

/// The key that gives a character, if it is one of those that can be typed:
/// small letters, digits and a few signs.
pub open spec fn key_name(c: char) -> Option<Seq<char>> {
    if 'a' <= c <= 'z' || '0' <= c <= '9' {
        Some(seq![c])
    } else if c == ' ' {
        Some("spc"@)
    } else if c == '/' {
        Some("slash"@)
    } else if c == '-' {
        Some("minus"@)
    } else if c == '.' {
        Some("dot"@)
    } else {
        None
    }
}

/// The keys of the first `n` characters; those that cannot be typed have none.
pub open spec fn key_names(c: Seq<char>, n: nat) -> Seq<Seq<char>>
    decreases n,
{
    if n == 0 {
        Seq::empty()
    } else {
        match key_name(c[n - 1]) {
            Some(k) => key_names(c, (n - 1) as nat).push(k),
            None => key_names(c, (n - 1) as nat),
        }
    }
}

/// Those of the first `n` characters that cannot be typed.
pub open spec fn untypable(c: Seq<char>, n: nat) -> Seq<char>
    decreases n,
{
    if n == 0 {
        Seq::empty()
    } else if key_name(c[n - 1]) is None {
        untypable(c, (n - 1) as nat).push(c[n - 1])
    } else {
        untypable(c, (n - 1) as nat)
    }
}

/// The characters of each string.
pub open spec fn string_views(v: Seq<String>) -> Seq<Seq<char>> {
    v.map_values(|s: String| s@)
}

/// The keys to press for a text, and the characters that were left out.
pub struct KeyTokens {
    pub tokens: Vec<String>,
    pub skipped: Vec<char>,
}

/// The keys to press for `s`.
pub fn sendkey_tokens(s: &str) -> (r: KeyTokens)
    ensures
        string_views(r.tokens@) == key_names(s@, s@.len()),
        r.skipped@ == untypable(s@, s@.len()),
{
    let chars = chars_of(s);
    let mut tokens: Vec<String> = Vec::new();
    let mut skipped: Vec<char> = Vec::new();
    let mut i: usize = 0;
    assert(string_views(tokens@) =~= Seq::<Seq<char>>::empty());
    assert(skipped@ =~= Seq::<char>::empty());
    while i < chars.len()
        invariant
            i <= chars@.len(),
            chars@ == s@,
            string_views(tokens@) == key_names(s@, i as nat),
            skipped@ == untypable(s@, i as nat),
        decreases chars@.len() - i,
    {
        let c: char = chars[i];
        let ghost before = tokens@;
        let mut token: Option<String> = None;
        if ('a' <= c && c <= 'z') || ('0' <= c && c <= '9') {
            token = Some(s.substring_char(i, i + 1).to_owned());
            assert(s@.subrange(i as int, i + 1) =~= seq![c]);
        } else if c == ' ' {
            token = Some("spc".to_owned());
        } else if c == '/' {
            token = Some("slash".to_owned());
        } else if c == '-' {
            token = Some("minus".to_owned());
        } else if c == '.' {
            token = Some("dot".to_owned());
        }
        match token {
            Some(t) => {
                tokens.push(t);
                assert(string_views(tokens@) =~= string_views(before).push(t@));
            },
            None => {
                skipped.push(c);
            },
        }
        i += 1;
    }
    KeyTokens { tokens, skipped }
}

} // verus!
