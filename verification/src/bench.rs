//! Naming for the benchmark corpus: how a benchmark's group and id become
//! the directory names the measurement harness writes its estimates under.
use vstd::prelude::*;

verus! {

/// Whether the harness keeps `c` in a directory name: ASCII letters and
/// digits, and `-`, `_`, `.` and space.
pub open spec fn keeps_char(c: char) -> bool {
    ||| ('a' <= c && c <= 'z')
    ||| ('A' <= c && c <= 'Z')
    ||| ('0' <= c && c <= '9')
    ||| c == '-'
    ||| c == '_'
    ||| c == '.'
    ||| c == ' '
}

/// `c` as it appears in a directory name: itself when kept, `_` otherwise.
pub open spec fn sanitized_char(c: char) -> char {
    if keeps_char(c) { c } else { '_' }
}

/// Appends one character to a string with std's `String::push`.
///
/// Trusted, not proved: as std documents for that function, the string's
/// characters afterwards are the old ones followed by `c`.
#[verifier::external_body]
fn push_char(text: &mut String, c: char)
    ensures
        final(text)@ == old(text)@.push(c),
{
    text.push(c);
}

/// The directory name the harness builds from `component`: every character
/// it considers path-hostile is replaced by `_`.
pub fn sanitize(component: &str) -> (name: String)
    ensures
        name@ == component@.map_values(|c: char| sanitized_char(c)),
{
    let mut name = String::new();
    for c in it: component.chars()
        invariant
            it.seq() == component@,
            name@ == component@.take(it.index() as int).map_values(|c: char| sanitized_char(c)),
    {
        let kept = ('a' <= c && c <= 'z') || ('A' <= c && c <= 'Z') || ('0' <= c && c <= '9')
            || c == '-' || c == '_' || c == '.' || c == ' ';
        let ghost before = name@;
        if kept {
            push_char(&mut name, c);
        } else {
            push_char(&mut name, '_');
        }
        assert(component@.take(it.index() as int + 1) =~= component@.take(it.index() as int).push(c));
        assert(name@ =~= component@.take(it.index() as int + 1).map_values(|c: char| sanitized_char(c)));
    }
    assert(component@.take(component@.len() as int) =~= component@);
    name
}

} // verus!
