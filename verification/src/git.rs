//! What the tool reads from Git: the range argument it passes to
//! `git diff`, and the parsing of what `git diff --name-only`,
//! `git ls-files -z` and `git rev-parse --show-toplevel` print.
use vstd::prelude::*;

use crate::text::{
    chars_of, insert_sorted, nonempty_lines, sorted_strict, split_on, string_of, trim, trimmed,
    trimmed_lines, views,
};

verus! {

/// How the diff range is written.
#[derive(Clone, Copy, Debug, PartialEq, Eq, Structural)]
pub enum DiffRange {
    /// `base..head`
    TwoDot,
    /// `base...head`, from the merge base
    ThreeDot,
}

/// The range argument of `git diff`.
pub open spec fn range_text(base: Seq<char>, head: Seq<char>, range: DiffRange) -> Seq<char> {
    match range {
        DiffRange::TwoDot => base + ".."@ + head,
        DiffRange::ThreeDot => base + "..."@ + head,
    }
}

/// Writes the range argument of `git diff`: `base..head` or `base...head`.
pub fn diff_range_arg(base: &str, head: &str, range: DiffRange) -> (res: String)
    ensures
        res@ == range_text(base@, head@, range),
{
    let mut s = String::from_str(base);
    match range {
        DiffRange::TwoDot => s.append(".."),
        DiffRange::ThreeDot => s.append("..."),
    }
    s.append(head);
    s
}

/// The changed files that `git diff --name-only` printed: its trimmed,
/// non-empty lines, in order.
pub fn parse_changed_files(stdout: &str) -> (res: Vec<String>)
    ensures
        views(res@) == nonempty_lines(stdout@),
{
    trimmed_lines(stdout)
}

/// The non-empty pieces of `text` between occurrences of `sep`.
pub open spec fn nonempty_pieces(text: Seq<char>, sep: char) -> Seq<Seq<char>> {
    split_on(text, sep).filter(|l: Seq<char>| l.len() > 0)
}

/// The files that `git ls-files -z` printed: the non-empty NUL-separated
/// names, sorted, without repetitions.
pub fn parse_repo_files(stdout: &str) -> (res: Vec<String>)
    ensures
        sorted_strict(views(res@)),
        views(res@).to_set() == nonempty_pieces(stdout@, '\0').to_set(),
{
    let cs = chars_of(stdout);
    let mut out: Vec<String> = Vec::new();
    let mut start: usize = 0;
    let mut i: usize = 0;
    let ghost p = |l: Seq<char>| l.len() > 0;
    assert(split_on(cs@.take(0), '\0') =~= seq![Seq::<char>::empty()]) by {
        assert(cs@.take(0) =~= Seq::<char>::empty());
    }
    assert(views(out@) =~= Seq::<Seq<char>>::empty());
    assert(Seq::<Seq<char>>::empty().filter(p) =~= Seq::<Seq<char>>::empty()) by {
        reveal(Seq::filter);
    }
    while i < cs.len()
        invariant
            cs@ == stdout@,
            start <= i <= cs@.len(),
            p == (|l: Seq<char>| l.len() > 0),
            split_on(cs@.take(i as int), '\0').len() >= 1,
            cs@.subrange(start as int, i as int) == split_on(cs@.take(i as int), '\0').last(),
            sorted_strict(views(out@)),
            views(out@).to_set() == split_on(cs@.take(i as int), '\0').drop_last().filter(p).to_set(),
        decreases cs@.len() - i,
    {
        let c = cs[i];
        let ghost pieces = split_on(cs@.take(i as int), '\0');
        proof {
            assert(cs@.take(i + 1).drop_last() =~= cs@.take(i as int));
            assert(cs@.take(i + 1).last() == c);
        }
        if c == '\0' {
            let piece = string_of(&cs, start, i);
            proof {
                let np = split_on(cs@.take(i + 1), '\0');
                assert(np == pieces.push(Seq::<char>::empty()));
                assert(np.drop_last() =~= pieces);
                assert(pieces =~= pieces.drop_last().push(pieces.last()));
                pieces.drop_last().lemma_filter_push(pieces.last(), p);
            }
            if i > start {
                let ghost before = views(out@);
                insert_sorted(&mut out, piece);
                proof {
                    pieces.drop_last().filter(p).lemma_push_to_set_commute(pieces.last());
                }
            }
            start = i + 1;
            proof {
                assert(cs@.subrange(start as int, i + 1) =~= Seq::<char>::empty());
            }
        } else {
            proof {
                let np = split_on(cs@.take(i + 1), '\0');
                assert(np == pieces.update(pieces.len() - 1, pieces.last().push(c)));
                assert(np.drop_last() =~= pieces.drop_last());
                assert(cs@.subrange(start as int, i + 1) =~= cs@.subrange(start as int, i as int).push(c));
            }
        }
        proof {
            crate::text::lemma_split_nonempty(cs@.take(i + 1), '\0');
        }
        i = i + 1;
    }
    assert(cs@.take(i as int) =~= cs@);
    let ghost pieces = split_on(cs@, '\0');
    let piece = string_of(&cs, start, i);
    proof {
        assert(pieces =~= pieces.drop_last().push(pieces.last()));
        pieces.drop_last().lemma_filter_push(pieces.last(), p);
    }
    if i > start {
        insert_sorted(&mut out, piece);
        proof {
            pieces.drop_last().filter(p).lemma_push_to_set_commute(pieces.last());
        }
    }
    out
}

/// The repository root that `git rev-parse --show-toplevel` printed: the
/// trimmed output, or nothing when it is blank.
pub fn parse_repo_root(stdout: &str) -> (res: Option<String>)
    ensures
        match res {
            Some(root) => trim(stdout@).len() > 0 && root@ == trim(stdout@),
            None => trim(stdout@).len() == 0,
        },
{
    let cs = chars_of(stdout);
    let root = trimmed(&cs);
    if root.as_str().is_empty() {
        None
    } else {
        Some(root)
    }
}

} // verus!
