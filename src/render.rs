//! Rendering the command of one job from a compiled template.
use vstd::prelude::*;
use crate::indexer::{all_positive, lemma_offsets_in_range, nat_seq, offsets, product};
use crate::template::{Segment, SegmentView, Selector, Template, wf_segments};
use crate::text::{decimal, decimal_string};
use crate::wordlist::{lengths_of, words_of, Wordlist};

verus! {

/// What a placeholder becomes for job `idx`, whose wordlist offsets are `offs`.
pub open spec fn piece(
    sel: Selector,
    idx: nat,
    words: Seq<Seq<Seq<char>>>,
    offs: Seq<nat>,
) -> Seq<char> {
    match sel {
        Selector::JobIndex => decimal(idx),
        Selector::Word(k) => words[k as int][offs[k as int] as int],
        Selector::End => Seq::empty(),
    }
}

/// The segments rendered in order: each literal followed by its piece.
pub open spec fn render(
    segs: Seq<SegmentView>,
    idx: nat,
    words: Seq<Seq<Seq<char>>>,
    offs: Seq<nat>,
) -> Seq<char>
    decreases segs.len(),
{
    if segs.len() == 0 {
        Seq::empty()
    } else {
        render(segs.drop_last(), idx, words, offs) + segs.last().0 + piece(
            segs.last().1,
            idx,
            words,
            offs,
        )
    }
}

/// The command of job `idx`: the template rendered with the offsets that the
/// indexer gives for `idx`.
pub open spec fn command_of(segs: Seq<SegmentView>, idx: nat, words: Seq<Seq<Seq<char>>>) -> Seq<
    char,
> {
    render(segs, idx, words, offsets(idx, lengths_of(words)))
}

proof fn lemma_render_split(
    a: Seq<SegmentView>,
    b: Seq<SegmentView>,
    idx: nat,
    words: Seq<Seq<Seq<char>>>,
    offs: Seq<nat>,
)
    ensures
        render(a + b, idx, words, offs) == render(a, idx, words, offs) + render(
            b,
            idx,
            words,
            offs,
        ),
    decreases b.len(),
{
    if b.len() == 0 {
        assert(a + b =~= a);
        assert(render(a, idx, words, offs) + Seq::<char>::empty() =~= render(a, idx, words, offs));
    } else {
        lemma_render_split(a, b.drop_last(), idx, words, offs);
        assert((a + b).drop_last() =~= a + b.drop_last());
        let r = render(b.drop_last(), idx, words, offs);
        let tail = b.last().0 + piece(b.last().1, idx, words, offs);
        assert(render(a, idx, words, offs) + r + b.last().0 + piece(b.last().1, idx, words, offs)
            =~= render(a, idx, words, offs) + (r + b.last().0 + piece(
            b.last().1,
            idx,
            words,
            offs,
        )));
    }
}

/// Where the rendered text of the segments before `j` ends.
pub open spec fn piece_start(
    segs: Seq<SegmentView>,
    j: int,
    idx: nat,
    words: Seq<Seq<Seq<char>>>,
) -> int {
    (render(segs.take(j), idx, words, offsets(idx, lengths_of(words))).len() + segs[j].0.len()) as int
}

/// Reading the command of job `idx` back: at the place of each wordlist
/// placeholder, it holds exactly the entry of that wordlist that the indexer
/// chose for `idx`.
pub proof fn lemma_rendered_entry(
    segs: Seq<SegmentView>,
    idx: nat,
    words: Seq<Seq<Seq<char>>>,
    j: int,
    k: usize,
)
    requires
        wf_segments(segs, words.len()),
        all_positive(lengths_of(words)),
        0 <= j < segs.len(),
        segs[j].1 == Selector::Word(k),
    ensures
        ({
            let offs = offsets(idx, lengths_of(words));
            let entry = words[k as int][offs[k as int] as int];
            let start = piece_start(segs, j, idx, words);
            &&& offs[k as int] < words[k as int].len()
            &&& command_of(segs, idx, words).subrange(start, start + entry.len()) == entry
        }),
{
    let offs = offsets(idx, lengths_of(words));
    lemma_offsets_in_range(idx, lengths_of(words));
    let entry = words[k as int][offs[k as int] as int];
    let head = segs.take(j + 1);
    let rest = segs.skip(j + 1);
    assert(segs =~= head + rest);
    lemma_render_split(head, rest, idx, words, offs);
    assert(head.drop_last() =~= segs.take(j));
    let before = render(segs.take(j), idx, words, offs);
    let lit = segs[j].0;
    let after = render(rest, idx, words, offs);
    assert(command_of(segs, idx, words) == before + lit + entry + after);
    assert((before + lit + entry + after).subrange(
        (before.len() + lit.len()) as int,
        (before.len() + lit.len() + entry.len()) as int,
    ) =~= entry);
}

/// Rendering is repeatable: two renderings of the same template for the same
/// index with the same wordlists give the same text.
pub proof fn lemma_render_repeatable(
    segs: Seq<SegmentView>,
    idx: nat,
    words: Seq<Seq<Seq<char>>>,
    first: Seq<char>,
    second: Seq<char>,
)
    requires
        first == command_of(segs, idx, words),
        second == command_of(segs, idx, words),
    ensures
        first == second,
{
}

/// Renders the command of job `idx`. The result depends on the template, the
/// index and the wordlists alone, so rendering an index twice gives the same
/// text.
pub fn gen_command(
    template: &Template,
    idx: usize,
    loaded_wordlist: &Vec<Wordlist>,
    wordlist_lengths: &Vec<usize>,
) -> (command: String)
    requires
        template.wf(loaded_wordlist@.len()),
        nat_seq(wordlist_lengths@) == lengths_of(words_of(loaded_wordlist@)),
        all_positive(nat_seq(wordlist_lengths@)),
    ensures
        command@ == command_of(template@, idx as nat, words_of(loaded_wordlist@)),
{
    let ghost words = words_of(loaded_wordlist@);
    let ghost segs = template@;
    let idxs = product(idx, wordlist_lengths);
    let ghost offs = offsets(idx as nat, lengths_of(words));
    proof {
        lemma_offsets_in_range(idx as nat, lengths_of(words));
    }
    let mut command = String::new();
    let mut j: usize = 0;
    assert(segs.take(0) =~= Seq::<SegmentView>::empty());
    while j < template.segments.len()
        invariant
            j <= template.segments.len(),
            segs == template@,
            wf_segments(segs, loaded_wordlist@.len() as nat),
            words == words_of(loaded_wordlist@),
            nat_seq(idxs@) == offs,
            offs == offsets(idx as nat, lengths_of(words)),
            offs.len() == words.len(),
            forall|k: int| 0 <= k < words.len() ==> offs[k] < words[k].len(),
            command@ == render(segs.take(j as int), idx as nat, words, offs),
        decreases template.segments.len() - j,
    {
        let seg: &Segment = &template.segments[j];
        assert(segs[j as int] == (seg.literal@, seg.selector));
        assert(segs.take(j + 1).drop_last() =~= segs.take(j as int));
        command.append(seg.literal.as_str());
        match seg.selector {
            Selector::JobIndex => {
                let digits = decimal_string(idx);
                command.append(digits.as_str());
            },
            Selector::Word(k) => {
                assert(k < loaded_wordlist@.len());
                assert(nat_seq(idxs@)[k as int] == idxs@[k as int] as nat);
                let value: &String = &loaded_wordlist[k].values[idxs[k]];
                command.append(value.as_str());
            },
            Selector::End => {},
        }
        j = j + 1;
    }
    assert(segs.take(j as int) =~= segs);
    command
}

} // verus!
