//! Splitting an address into host and path.
use vstd::prelude::*;
use crate::text::{chars_of, find, find_in, lemma_find_from};

verus! {

/// Splits `input` before its first `/`: the host, then the path with its
/// leading slash. `None` when there is no `/`.
pub fn parse_url(input: &str) -> (r: Option<(&str, &str)>)
    ensures
        match find(input@, seq!['/']) {
            Some(i) => r matches Some((host, path)) && host@ == input@.take(i) && path@ == input@.skip(i),
            None => r is None,
        },
{
    let s = chars_of(input);
    let n = s.len();
    let slash = vec!['/'];
    assert(s@.subrange(0, n as int) =~= input@);
    match find_in(s.as_slice(), 0, n, slash.as_slice()) {
        Some(i) => {
            assert(slash@ =~= seq!['/']);
            proof {
                lemma_find_from(input@, seq!['/'], 0);
            }
            let host = input.substring_char(0, i);
            let path = input.substring_char(i, n);
            assert(input@.subrange(0, i as int) =~= input@.take(i as int));
            assert(input@.subrange(i as int, n as int) =~= input@.skip(i as int));
            Some((host, path))
        },
        None => {
            assert(slash@ =~= seq!['/']);
            None
        },
    }
}

} // verus!
