//! Selecting files by a pattern.

use crate::metadata::name_views;
use crate::text::chars_of;
use vstd::prelude::*;

verus! {

/// Whether a name matches a pattern, in which an asterisk stands for any run of characters and
/// every other character for itself.
pub open spec fn matches_pattern(name: Seq<char>, pattern: Seq<char>) -> bool
    decreases pattern.len(), name.len(),
{
    if pattern.len() == 0 {
        name.len() == 0
    } else if pattern[0] == '*' {
        matches_pattern(name, pattern.skip(1)) || (name.len() > 0 && matches_pattern(
            name.skip(1),
            pattern,
        ))
    } else {
        name.len() > 0 && name[0] == pattern[0] && matches_pattern(name.skip(1), pattern.skip(1))
    }
}

/// Whether a pattern selects a name: the empty pattern selects every name.
pub open spec fn selects(pattern: Seq<char>, name: Seq<char>) -> bool {
    pattern.len() == 0 || matches_pattern(name, pattern)
}

/// The names that a pattern selects, in their order.
pub open spec fn selected(names: Seq<Seq<char>>, pattern: Seq<char>) -> Seq<Seq<char>> {
    names.filter(|name: Seq<char>| selects(pattern, name))
}

/// Decides whether a name matches a pattern.
fn matches_chars(name: &Vec<char>, pattern: &Vec<char>) -> (b: bool)
    ensures
        b == matches_pattern(name@, pattern@),
{
    let n: usize = name.len();
    // Place `j` tells whether the name from `j` on matches the pattern from `i` on.
    let mut row: Vec<bool> = Vec::new();
    let mut j: usize = 0;
    while j < n
        invariant
            j <= n,
            row@.len() == j,
            forall|k: int| 0 <= k < j ==> !(#[trigger] row@[k]),
        decreases n - j,
    {
        row.push(false);
        j = j + 1;
    }
    row.push(true);
    let mut i: usize = pattern.len();
    while i > 0
        invariant
            n == name@.len(),
            i <= pattern@.len(),
            row@.len() == n + 1,
            forall|k: int|
                0 <= k <= n ==> #[trigger] row@[k] == matches_pattern(
                    name@.skip(k),
                    pattern@.skip(i as int),
                ),
        decreases i,
    {
        i = i - 1;
        row = longer_row(name, pattern, i, &row);
    }
    proof {
        assert(name@.skip(0) =~= name@);
        assert(pattern@.skip(0) =~= pattern@);
        assert(row@[0] == matches_pattern(name@.skip(0), pattern@.skip(0)));
    }
    row[0]
}

/// From which ends of the name match the pattern from `i + 1` on, finds out which match it from
/// `i` on.
fn longer_row(name: &Vec<char>, pattern: &Vec<char>, i: usize, row: &Vec<bool>) -> (next: Vec<bool>)
    requires
        i < pattern@.len(),
        row@.len() == name@.len() + 1,
        forall|k: int|
            0 <= k <= name@.len() ==> #[trigger] row@[k] == matches_pattern(
                name@.skip(k),
                pattern@.skip(i + 1),
            ),
    ensures
        next@.len() == row@.len(),
        forall|k: int|
            0 <= k <= name@.len() ==> #[trigger] next@[k] == matches_pattern(
                name@.skip(k),
                pattern@.skip(i as int),
            ),
{
    let c: char = pattern[i];
    let ghost tail = pattern@.skip(i as int);
    let mut next: Vec<bool> = vec![false; row.len()];
    let mut j: usize = row.len();
    while j > 0
        invariant
            i < pattern@.len(),
            c == pattern@[i as int],
            tail == pattern@.skip(i as int),
            j <= row@.len() == name@.len() + 1,
            next@.len() == row@.len(),
            forall|k: int|
                0 <= k <= name@.len() ==> #[trigger] row@[k] == matches_pattern(
                    name@.skip(k),
                    pattern@.skip(i + 1),
                ),
            forall|k: int|
                j <= k <= name@.len() ==> #[trigger] next@[k] == matches_pattern(name@.skip(k), tail),
        decreases j,
    {
        j = j - 1;
        let more = j < name.len();
        proof {
            assert(tail[0] == c);
            assert(tail.skip(1) =~= pattern@.skip(i + 1));
            assert(row@[j as int] == matches_pattern(name@.skip(j as int), tail.skip(1)));
            if more {
                assert(name@.skip(j as int)[0] == name@[j as int]);
                assert(name@.skip(j as int).skip(1) =~= name@.skip(j + 1));
                assert(row@[j + 1] == matches_pattern(name@.skip(j + 1), tail.skip(1)));
                assert(next@[j + 1] == matches_pattern(name@.skip(j + 1), tail));
            }
        }
        let matched = if c == '*' {
            row[j] || (more && next[j + 1])
        } else {
            more && name[j] == c && row[j + 1]
        };
        next.set(j, matched);
    }
    next
}

/// Picks the names that a pattern selects.
pub fn filter_files(names: &Vec<String>, pattern: &str) -> (r: Vec<String>)
    ensures
        name_views(r@) == selected(name_views(names@), pattern@),
{
    let pattern_chars = chars_of(pattern);
    let mut picked: Vec<String> = Vec::new();
    let ghost views = name_views(names@);
    let ghost pred = |name: Seq<char>| selects(pattern@, name);
    let mut i: usize = 0;
    proof {
        reveal(Seq::filter);
        assert(name_views(picked@) =~= views.take(0).filter(pred));
    }
    while i < names.len()
        invariant
            i <= names@.len(),
            views == name_views(names@),
            pred == (|name: Seq<char>| selects(pattern@, name)),
            pattern_chars@ == pattern@,
            name_views(picked@) == views.take(i as int).filter(pred),
        decreases names@.len() - i,
    {
        let ghost before = name_views(picked@);
        let chars = chars_of(names[i].as_str());
        proof {
            reveal(Seq::filter);
            assert(views.take(i + 1).drop_last() =~= views.take(i as int));
            assert(views.take(i + 1).last() == names@[i as int]@);
        }
        if pattern_chars.len() == 0 || matches_chars(&chars, &pattern_chars) {
            picked.push(names[i].clone());
            assert(name_views(picked@) =~= before.push(names@[i as int]@));
        }
        i = i + 1;
    }
    assert(views.take(i as int) =~= views);
    picked
}

/// An asterisk alone selects every name, as the empty pattern does; a pattern without an asterisk
/// matches itself and nothing else.
pub proof fn law_what_patterns_select(name: Seq<char>, pattern: Seq<char>)
    ensures
        selects(seq!['*'], name),
        selects(Seq::empty(), name),
        !pattern.contains('*') ==> (matches_pattern(name, pattern) <==> name == pattern),
{
    lemma_asterisk(name);
    if !pattern.contains('*') {
        lemma_plain(name, pattern);
    }
}

/// An asterisk matches anything.
proof fn lemma_asterisk(name: Seq<char>)
    ensures
        matches_pattern(name, seq!['*']),
    decreases name.len(),
{
    assert(seq!['*'].skip(1) =~= Seq::empty());
    if name.len() > 0 {
        lemma_asterisk(name.skip(1));
    } else {
        assert(matches_pattern(name, seq!['*'].skip(1)));
    }
}

/// Without an asterisk, a pattern matches only itself.
proof fn lemma_plain(name: Seq<char>, pattern: Seq<char>)
    requires
        !pattern.contains('*'),
    ensures
        matches_pattern(name, pattern) <==> name == pattern,
    decreases pattern.len(),
{
    if pattern.len() == 0 {
        if name.len() == 0 {
            assert(name =~= pattern);
        }
    } else {
        assert(pattern.contains(pattern[0]));
        assert(!pattern.skip(1).contains('*')) by {
            if pattern.skip(1).contains('*') {
                let k = choose|k: int| 0 <= k < pattern.skip(1).len() && pattern.skip(1)[k] == '*';
                assert(pattern[k + 1] == '*');
            }
        }
        if name.len() > 0 {
            lemma_plain(name.skip(1), pattern.skip(1));
            if name[0] == pattern[0] && name.skip(1) == pattern.skip(1) {
                assert(name =~= seq![name[0]] + name.skip(1));
                assert(pattern =~= seq![pattern[0]] + pattern.skip(1));
            }
        }
    }
}

/// How many asterisks a pattern holds.
pub open spec fn asterisks(pattern: Seq<char>) -> nat
    decreases pattern.len(),
{
    if pattern.len() == 0 {
        0
    } else {
        asterisks(pattern.drop_first()) + if pattern[0] == '*' {
            1nat
        } else {
            0
        }
    }
}

/// A pattern with one run of characters put in place of each of its asterisks, in order.
pub open spec fn filled(pattern: Seq<char>, runs: Seq<Seq<char>>) -> Seq<char>
    decreases pattern.len(),
{
    if pattern.len() == 0 {
        Seq::empty()
    } else if pattern[0] == '*' {
        runs[0] + filled(pattern.drop_first(), runs.drop_first())
    } else {
        seq![pattern[0]] + filled(pattern.drop_first(), runs)
    }
}

/// Whether a name is what a pattern becomes with these runs.
pub open spec fn is_filling(pattern: Seq<char>, runs: Seq<Seq<char>>, name: Seq<char>) -> bool {
    runs.len() == asterisks(pattern) && filled(pattern, runs) == name
}

/// What matches a pattern is what the pattern becomes with some runs.
proof fn lemma_match_is_filling(name: Seq<char>, pattern: Seq<char>) -> (runs: Seq<Seq<char>>)
    requires
        matches_pattern(name, pattern),
    ensures
        is_filling(pattern, runs, name),
    decreases pattern.len(), name.len(),
{
    if pattern.len() == 0 {
        assert(name =~= Seq::empty());
        Seq::empty()
    } else {
        let tail = pattern.skip(1);
        assert(tail =~= pattern.drop_first());
        if pattern[0] == '*' {
            if matches_pattern(name, tail) {
                let rest = lemma_match_is_filling(name, tail);
                let runs = seq![Seq::<char>::empty()] + rest;
                assert(runs.drop_first() =~= rest);
                assert(Seq::<char>::empty() + name =~= name);
                runs
            } else {
                let shorter = lemma_match_is_filling(name.skip(1), pattern);
                let runs = shorter.update(0, seq![name[0]] + shorter[0]);
                assert(runs.drop_first() =~= shorter.drop_first());
                let end = filled(tail, shorter.drop_first());
                assert(name =~= seq![name[0]] + name.skip(1));
                assert((seq![name[0]] + shorter[0]) + end =~= seq![name[0]] + (shorter[0] + end));
                runs
            }
        } else {
            let runs = lemma_match_is_filling(name.skip(1), tail);
            assert(name =~= seq![name[0]] + name.skip(1));
            runs
        }
    }
}

/// Whatever runs are put in place of the asterisks of a pattern, the outcome matches it.
proof fn lemma_filling_matches(pattern: Seq<char>, runs: Seq<Seq<char>>, n: nat)
    requires
        runs.len() == asterisks(pattern),
        pattern.len() > 0 && pattern[0] == '*' ==> n == runs[0].len(),
    ensures
        matches_pattern(filled(pattern, runs), pattern),
    decreases pattern.len(), n,
{
    let name = filled(pattern, runs);
    reveal_with_fuel(asterisks, 2);
    if pattern.len() > 0 {
        let tail = pattern.skip(1);
        assert(tail =~= pattern.drop_first());
        if pattern[0] == '*' {
            let rest = runs.drop_first();
            if n == 0 {
                assert(name =~= filled(tail, rest));
                lemma_filling_matches(
                    tail,
                    rest,
                    if rest.len() > 0 {
                        rest[0].len()
                    } else {
                        0
                    },
                );
            } else {
                let shorter = runs.update(0, runs[0].skip(1));
                assert(shorter.drop_first() =~= rest);
                assert(name.skip(1) =~= filled(pattern, shorter));
                lemma_filling_matches(pattern, shorter, (n - 1) as nat);
            }
        } else {
            assert(name.skip(1) =~= filled(tail, runs));
            lemma_filling_matches(
                tail,
                runs,
                if runs.len() > 0 {
                    runs[0].len()
                } else {
                    0
                },
            );
        }
    }
}

/// A name matches a pattern exactly if it is what the pattern becomes with some run of characters, of
/// any length and any kind, in place of each asterisk.
pub proof fn law_asterisks_stand_for_any_run(name: Seq<char>, pattern: Seq<char>)
    ensures
        matches_pattern(name, pattern) <==> exists|runs: Seq<Seq<char>>|
            is_filling(pattern, runs, name),
{
    if matches_pattern(name, pattern) {
        let runs = lemma_match_is_filling(name, pattern);
        assert(is_filling(pattern, runs, name));
    }
    if exists|runs: Seq<Seq<char>>| is_filling(pattern, runs, name) {
        let runs = choose|runs: Seq<Seq<char>>| is_filling(pattern, runs, name);
        lemma_filling_matches(
            pattern,
            runs,
            if runs.len() > 0 {
                runs[0].len()
            } else {
                0
            },
        );
    }
}

/// A pattern without asterisks stays as it is.
proof fn lemma_plain_filling(pattern: Seq<char>, runs: Seq<Seq<char>>)
    requires
        !pattern.contains('*'),
    ensures
        asterisks(pattern) == 0,
        filled(pattern, runs) == pattern,
    decreases pattern.len(),
{
    if pattern.len() > 0 {
        let tail = pattern.drop_first();
        assert(pattern.contains(pattern[0]));
        if tail.contains('*') {
            let k = choose|k: int| 0 <= k < tail.len() && tail[k] == '*';
            assert(pattern[k + 1] == '*');
        }
        lemma_plain_filling(tail, runs);
        assert(pattern =~= seq![pattern[0]] + tail);
    } else {
        assert(pattern =~= Seq::empty());
    }
}

/// A beginning without asterisks stays in front.
proof fn lemma_plain_beginning(prefix: Seq<char>, pattern: Seq<char>, runs: Seq<Seq<char>>)
    requires
        !prefix.contains('*'),
    ensures
        asterisks(prefix + pattern) == asterisks(pattern),
        filled(prefix + pattern, runs) == prefix + filled(pattern, runs),
    decreases prefix.len(),
{
    if prefix.len() == 0 {
        assert(prefix + pattern =~= pattern);
        assert(prefix + filled(pattern, runs) =~= filled(pattern, runs));
    } else {
        let tail = prefix.drop_first();
        assert(prefix.contains(prefix[0]));
        if tail.contains('*') {
            let k = choose|k: int| 0 <= k < tail.len() && tail[k] == '*';
            assert(prefix[k + 1] == '*');
        }
        lemma_plain_beginning(tail, pattern, runs);
        assert((prefix + pattern).drop_first() =~= tail + pattern);
        assert(seq![prefix[0]] + (tail + filled(pattern, runs)) =~= prefix + filled(
            pattern,
            runs,
        ));
    }
}

/// A pattern with a single asterisk matches the names that begin with what is before it, end with what
/// is behind it, and have anything, however long, between the two; and no other name.
pub proof fn law_one_asterisk_matches_by_both_ends(
    prefix: Seq<char>,
    middle: Seq<char>,
    suffix: Seq<char>,
    name: Seq<char>,
)
    requires
        !prefix.contains('*'),
        !suffix.contains('*'),
    ensures
        matches_pattern(prefix + middle + suffix, prefix + seq!['*'] + suffix),
        matches_pattern(name, prefix + seq!['*'] + suffix) ==> name.len() >= prefix.len()
            + suffix.len() && name.take(prefix.len() as int) == prefix && name.skip(
            name.len() - suffix.len(),
        ) == suffix,
{
    let star = seq!['*'] + suffix;
    let pattern = prefix + seq!['*'] + suffix;
    assert(pattern =~= prefix + star);
    assert(star.drop_first() =~= suffix);
    let one = seq![middle];
    lemma_plain_filling(suffix, one.drop_first());
    lemma_plain_beginning(prefix, star, one);
    assert(prefix + (middle + suffix) =~= prefix + middle + suffix);
    assert(is_filling(pattern, one, prefix + middle + suffix));
    law_asterisks_stand_for_any_run(prefix + middle + suffix, pattern);
    if matches_pattern(name, pattern) {
        law_asterisks_stand_for_any_run(name, pattern);
        let runs = choose|runs: Seq<Seq<char>>| is_filling(pattern, runs, name);
        lemma_plain_filling(suffix, runs.drop_first());
        lemma_plain_beginning(prefix, star, runs);
        assert(name == prefix + (runs[0] + suffix));
        assert(name.take(prefix.len() as int) =~= prefix);
        assert(name.skip(name.len() - suffix.len()) =~= suffix);
    }
}

/// The names that a pattern selects are exactly those of the list that are what the pattern becomes with
/// some runs in place of its asterisks, or all of them if the pattern is empty; each comes as often as
/// in the list, and they keep their order.
pub proof fn law_selected_names_are_those_that_match(names: Seq<Seq<char>>, pattern: Seq<char>)
    ensures
        selected(names, pattern) == names.filter(
            |name: Seq<char>|
                pattern.len() == 0 || exists|runs: Seq<Seq<char>>|
                    is_filling(pattern, runs, name),
        ),
{
    let plain = |name: Seq<char>|
        pattern.len() == 0 || exists|runs: Seq<Seq<char>>| is_filling(pattern, runs, name);
    let pred = |name: Seq<char>| selects(pattern, name);
    assert forall|name: Seq<char>| #[trigger] plain(name) == pred(name) by {
        law_asterisks_stand_for_any_run(name, pattern);
    }
    assert(plain =~= pred);
}

} // verus!
