//! Compiling a command template into literal and placeholder segments.
//!
//! The command is scanned left to right. At each position the index
//! identifier, where one is configured, is tried first, then each wordlist
//! identifier in registration order; the first that occurs there wins, which
//! is a precedence rule and not a longest match. Characters where nothing
//! matches collect into the pending literal, which the next placeholder (or
//! the end of the command) closes.
use vstd::prelude::*;
use crate::text::{chars_of, is_prefix_at, prefix_at};
use crate::wordlist::{ids_of, Wordlist};

verus! {

/// What follows the literal text of a segment.
#[derive(Clone, Copy, Debug, PartialEq, Eq, Structural)]
pub enum Selector {
    /// The decimal index of the job.
    JobIndex,
    /// A value of the wordlist at this position.
    Word(usize),
    /// Nothing: the trailing segment.
    End,
}

/// Literal text followed by a placeholder.
#[derive(Debug)]
pub struct Segment {
    pub literal: String,
    pub selector: Selector,
}

/// A compiled command template.
#[derive(Debug)]
pub struct Template {
    pub segments: Vec<Segment>,
}

/// A segment as mathematical values.
pub type SegmentView = (Seq<char>, Selector);

impl View for Template {
    type V = Seq<SegmentView>;

    open spec fn view(&self) -> Seq<SegmentView> {
        segments_view(self.segments@)
    }
}

/// Segments as mathematical values.
pub open spec fn segments_view(segs: Seq<Segment>) -> Seq<SegmentView> {
    segs.map_values(|g: Segment| (g.literal@, g.selector))
}

/// Well-formed for `n` wordlists: segments end with the one trailing segment,
/// and every wordlist placeholder names one of the `n` wordlists.
pub open spec fn wf_segments(segs: Seq<SegmentView>, n: nat) -> bool {
    &&& segs.len() > 0
    &&& segs.last().1 == Selector::End
    &&& forall|j: int| 0 <= j < segs.len() - 1 ==> segs[j].1 != Selector::End
    &&& forall|j: int|
        0 <= j < segs.len() ==> match #[trigger] segs[j].1 {
            Selector::Word(k) => k < n,
            _ => true,
        }
}

impl Template {
    /// Well-formed for `n` wordlists.
    pub open spec fn wf(&self, n: nat) -> bool {
        wf_segments(self@, n)
    }
}

/// Wordlist identifier `j` is not empty and occurs at `pos`.
pub open spec fn word_matches(cmd: Seq<char>, pos: int, ids: Seq<Seq<char>>, j: int) -> bool {
    ids[j].len() > 0 && is_prefix_at(ids[j], cmd, pos)
}

/// The first wordlist, from position `from` on, whose identifier matches at `pos`.
pub open spec fn first_word(cmd: Seq<char>, pos: int, ids: Seq<Seq<char>>, from: int) -> Option<
    int,
>
    decreases ids.len() - from,
{
    if from < 0 || from >= ids.len() {
        None
    } else if word_matches(cmd, pos, ids, from) {
        Some(from)
    } else {
        first_word(cmd, pos, ids, from + 1)
    }
}

/// The placeholder that matches at `pos`, with the length of its identifier,
/// by precedence: the index identifier (if not empty), then the wordlist
/// identifiers in order.
pub open spec fn match_at(cmd: Seq<char>, pos: int, index: Seq<char>, ids: Seq<Seq<char>>) -> Option<
    (Selector, nat),
> {
    if index.len() > 0 && is_prefix_at(index, cmd, pos) {
        Some((Selector::JobIndex, index.len()))
    } else {
        match first_word(cmd, pos, ids, 0) {
            Some(j) => Some((Selector::Word(j as usize), ids[j].len())),
            None => None,
        }
    }
}

/// The identifier that a placeholder stands for in the command.
pub open spec fn token(sel: Selector, index: Seq<char>, ids: Seq<Seq<char>>) -> Seq<char> {
    match sel {
        Selector::JobIndex => index,
        Selector::Word(k) => ids[k as int],
        Selector::End => Seq::empty(),
    }
}

/// The segments of the command from `pos` on, with `pending` literal text
/// collected before `pos`.
pub open spec fn scan(
    cmd: Seq<char>,
    pos: int,
    pending: Seq<char>,
    index: Seq<char>,
    ids: Seq<Seq<char>>,
) -> Seq<SegmentView>
    decreases cmd.len() - pos,
    via scan_decreases
{
    if pos < 0 || pos >= cmd.len() {
        seq![(pending, Selector::End)]
    } else {
        match match_at(cmd, pos, index, ids) {
            Some((sel, n)) => seq![(pending, sel)] + scan(cmd, pos + n, Seq::empty(), index, ids),
            None => scan(cmd, pos + 1, pending.push(cmd[pos]), index, ids),
        }
    }
}

#[via_fn]
proof fn scan_decreases(
    cmd: Seq<char>,
    pos: int,
    pending: Seq<char>,
    index: Seq<char>,
    ids: Seq<Seq<char>>,
) {
    if 0 <= pos < cmd.len() {
        lemma_match_at(cmd, pos, index, ids);
    }
}

/// The compiled form of a command.
pub open spec fn compile(cmd: Seq<char>, index: Seq<char>, ids: Seq<Seq<char>>) -> Seq<
    SegmentView,
> {
    scan(cmd, 0, Seq::empty(), index, ids)
}

proof fn lemma_first_word(cmd: Seq<char>, pos: int, ids: Seq<Seq<char>>, from: int)
    requires
        0 <= from,
    ensures
        match first_word(cmd, pos, ids, from) {
            Some(j) => from <= j < ids.len() && word_matches(cmd, pos, ids, j) && forall|m: int|
                from <= m < j ==> !word_matches(cmd, pos, ids, m),
            None => forall|m: int| from <= m < ids.len() ==> !word_matches(cmd, pos, ids, m),
        },
    decreases ids.len() - from,
{
    if from < ids.len() && !word_matches(cmd, pos, ids, from) {
        lemma_first_word(cmd, pos, ids, from + 1);
    }
}

/// A placeholder that matches stands for a non-empty identifier that occurs
/// at that position.
proof fn lemma_match_at(cmd: Seq<char>, pos: int, index: Seq<char>, ids: Seq<Seq<char>>)
    ensures
        match match_at(cmd, pos, index, ids) {
            Some((sel, n)) => {
                &&& sel != Selector::End
                &&& n > 0
                &&& 0 <= pos && pos + n <= cmd.len()
                &&& ids.len() <= usize::MAX ==> {
                    &&& token(sel, index, ids) == cmd.subrange(pos, pos + n)
                    &&& match sel {
                        Selector::Word(k) => k < ids.len(),
                        _ => true,
                    }
                }
            },
            None => true,
        },
{
    lemma_first_word(cmd, pos, ids, 0);
}

proof fn lemma_scan_wf(
    cmd: Seq<char>,
    pos: int,
    pending: Seq<char>,
    index: Seq<char>,
    ids: Seq<Seq<char>>,
)
    requires
        ids.len() <= usize::MAX,
    ensures
        wf_segments(scan(cmd, pos, pending, index, ids), ids.len()),
    decreases cmd.len() - pos,
{
    if 0 <= pos < cmd.len() {
        lemma_match_at(cmd, pos, index, ids);
        match match_at(cmd, pos, index, ids) {
            Some((sel, n)) => {
                lemma_scan_wf(cmd, pos + n, Seq::empty(), index, ids);
                let rest = scan(cmd, pos + n, Seq::empty(), index, ids);
                let segs = seq![(pending, sel)] + rest;
                assert forall|j: int| 0 < j < segs.len() implies segs[j] == rest[j - 1] by {}
            },
            None => {
                lemma_scan_wf(cmd, pos + 1, pending.push(cmd[pos]), index, ids);
            },
        }
    }
}

/// The command text that segments stand for: each literal followed by the
/// identifier of its placeholder.
pub open spec fn unparse(segs: Seq<SegmentView>, index: Seq<char>, ids: Seq<Seq<char>>) -> Seq<
    char,
>
    decreases segs.len(),
{
    if segs.len() == 0 {
        Seq::empty()
    } else {
        segs[0].0 + token(segs[0].1, index, ids) + unparse(segs.drop_first(), index, ids)
    }
}

proof fn lemma_scan_unparse(
    cmd: Seq<char>,
    pos: int,
    pending: Seq<char>,
    index: Seq<char>,
    ids: Seq<Seq<char>>,
)
    requires
        0 <= pos <= cmd.len(),
        ids.len() <= usize::MAX,
    ensures
        unparse(scan(cmd, pos, pending, index, ids), index, ids) == pending + cmd.subrange(
            pos,
            cmd.len() as int,
        ),
    decreases cmd.len() - pos,
{
    let segs = scan(cmd, pos, pending, index, ids);
    if pos == cmd.len() {
        assert(segs.drop_first() =~= Seq::<SegmentView>::empty());
        assert(pending + cmd.subrange(pos, cmd.len() as int) =~= pending);
        assert(unparse(segs.drop_first(), index, ids) == Seq::<char>::empty());
        assert(segs[0].0 == pending);
        assert(unparse(segs, index, ids) =~= pending);
    } else {
        lemma_match_at(cmd, pos, index, ids);
        match match_at(cmd, pos, index, ids) {
            Some((sel, n)) => {
                lemma_scan_unparse(cmd, pos + n, Seq::empty(), index, ids);
                let rest = scan(cmd, pos + n, Seq::empty(), index, ids);
                assert(segs.drop_first() =~= rest);
                assert(pending + cmd.subrange(pos, pos + n) + (Seq::<char>::empty()
                    + cmd.subrange(pos + n, cmd.len() as int)) =~= pending + cmd.subrange(
                    pos,
                    cmd.len() as int,
                ));
            },
            None => {
                lemma_scan_unparse(cmd, pos + 1, pending.push(cmd[pos]), index, ids);
                assert(pending.push(cmd[pos]) + cmd.subrange(pos + 1, cmd.len() as int)
                    =~= pending + cmd.subrange(pos, cmd.len() as int));
            },
        }
    }
}

/// Compiling loses nothing: putting back, in place of each placeholder, the
/// identifier it matched gives the command again.
pub proof fn lemma_compile_round_trip(cmd: Seq<char>, index: Seq<char>, ids: Seq<Seq<char>>)
    requires
        ids.len() <= usize::MAX,
    ensures
        unparse(compile(cmd, index, ids), index, ids) == cmd,
{
    lemma_scan_unparse(cmd, 0, Seq::empty(), index, ids);
    assert(Seq::<char>::empty() + cmd.subrange(0, cmd.len() as int) =~= cmd);
}

/// The characters of each vector.
pub open spec fn char_views(v: Seq<Vec<char>>) -> Seq<Seq<char>> {
    v.map_values(|c: Vec<char>| c@)
}

/// The placeholder that matches at `pos`, with the length of its identifier.
fn match_here(cmd: &Vec<char>, pos: usize, index: &Vec<char>, ids: &Vec<Vec<char>>) -> (r: Option<
    (Selector, usize),
>)
    ensures
        match r {
            Some((sel, n)) => match_at(cmd@, pos as int, index@, char_views(ids@)) == Some(
                (sel, n as nat),
            ),
            None => match_at(cmd@, pos as int, index@, char_views(ids@)) is None,
        },
{
    let ghost idv = char_views(ids@);
    if index.len() > 0 && prefix_at(index, cmd, pos) {
        return Some((Selector::JobIndex, index.len()));
    }
    let mut j: usize = 0;
    while j < ids.len()
        invariant
            j <= ids.len(),
            idv == char_views(ids@),
            first_word(cmd@, pos as int, idv, 0) == first_word(cmd@, pos as int, idv, j as int),
            !(index@.len() > 0 && is_prefix_at(index@, cmd@, pos as int)),
        decreases ids.len() - j,
    {
        assert(idv[j as int] == ids@[j as int]@);
        if ids[j].len() > 0 && prefix_at(&ids[j], cmd, pos) {
            assert(word_matches(cmd@, pos as int, idv, j as int));
            assert(first_word(cmd@, pos as int, idv, j as int) == Some(j as int));
            return Some((Selector::Word(j), ids[j].len()));
        }
        j = j + 1;
    }
    None
}

/// Compiles `command` into segments. An empty `index` means that no index
/// identifier is configured; an empty wordlist identifier never matches.
pub fn precompute_template(command: &str, index: &str, wordlists: &Vec<Wordlist>) -> (t: Template)
    ensures
        t@ == compile(command@, index@, ids_of(wordlists@)),
        t.wf(wordlists@.len()),
{
    let ghost idv = ids_of(wordlists@);
    let cmd = chars_of(command);
    let idx = chars_of(index);
    let mut ids: Vec<Vec<char>> = Vec::new();
    let mut k: usize = 0;
    while k < wordlists.len()
        invariant
            k <= wordlists.len(),
            idv == ids_of(wordlists@),
            char_views(ids@) =~= idv.take(k as int),
        decreases wordlists.len() - k,
    {
        let c = chars_of(wordlists[k].identifier.as_str());
        let ghost before = char_views(ids@);
        ids.push(c);
        assert(char_views(ids@) =~= before.push(c@));
        assert(idv.take(k + 1) =~= idv.take(k as int).push(idv[k as int]));
        k = k + 1;
    }
    assert(idv.take(k as int) =~= idv);
    let mut segments: Vec<Segment> = Vec::new();
    let mut start: usize = 0;
    let mut i: usize = 0;
    let ghost target = compile(command@, index@, idv);
    assert(cmd@.subrange(0, 0) =~= Seq::<char>::empty());
    assert(segments_view(segments@) =~= Seq::<SegmentView>::empty());
    while i < cmd.len()
        invariant
            start <= i <= cmd.len(),
            cmd@ == command@,
            idx@ == index@,
            char_views(ids@) == idv,
            segments_view(segments@) + scan(cmd@, i as int, cmd@.subrange(start as int, i as int), idx@, idv)
                == target,
        decreases cmd.len() - i,
    {
        let ghost before = segments_view(segments@);
        let ghost pending = cmd@.subrange(start as int, i as int);
        proof {
            lemma_match_at(cmd@, i as int, idx@, idv);
        }
        match match_here(&cmd, i, &idx, &ids) {
            Some((sel, n)) => {
                let literal = String::from_str(command.substring_char(start, i));
                segments.push(Segment { literal, selector: sel });
                assert(segments_view(segments@) =~= before.push((pending, sel)));
                i = i + n;
                start = i;
                assert(cmd@.subrange(start as int, i as int) =~= Seq::<char>::empty());
                assert(before + scan(cmd@, (i - n) as int, pending, idx@, idv) =~= segments_view(segments@) + scan(cmd@, i as int, Seq::empty(), idx@, idv));
            },
            None => {
                assert(pending.push(cmd@[i as int]) =~= cmd@.subrange(start as int, i + 1));
                i = i + 1;
            },
        }
    }
    let ghost before = segments_view(segments@);
    let literal = String::from_str(command.substring_char(start, i));
    segments.push(Segment { literal, selector: Selector::End });
    assert(segments_view(segments@) =~= before + seq![
        (cmd@.subrange(start as int, i as int), Selector::End),
    ]);
    proof {
        lemma_scan_wf(cmd@, 0, Seq::empty(), idx@, idv);
    }
    Template { segments }
}

} // verus!
