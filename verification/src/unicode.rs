use vstd::prelude::*;

verus! {

/// The sequence of extended grapheme clusters of a string, in order, as
/// unicode_segmentation's segmentation yields them.
pub uninterp spec fn graphemes_of(s: Seq<char>) -> Seq<Seq<char>>;

/// The display width in terminal columns of a string, as unicode_width
/// computes it.
pub uninterp spec fn display_width_of(s: Seq<char>) -> nat;

/// Relies on unicode_segmentation::UnicodeSegmentation::graphemes with
/// `is_extended = true`: it yields the extended grapheme clusters of the
/// string in order, each a nonempty substring, and their concatenation is
/// the whole string.
#[verifier::external_body]
pub fn split_graphemes(s: &str) -> (r: Vec<String>)
    ensures
        r@.map_values(|g: String| g@) == graphemes_of(s@),
        r@.map_values(|g: String| g@).flatten() == s@,
        forall|i: int| 0 <= i < r@.len() ==> (#[trigger] r@[i])@.len() >= 1,
{
    unicode_segmentation::UnicodeSegmentation::graphemes(s, true)
        .map(|g: &str| g.to_string())
        .collect()
}

/// Relies on unicode_width::UnicodeWidthStr::width: the display width in
/// columns, a function of the string's characters alone; an empty string
/// occupies no columns.
#[verifier::external_body]
pub fn display_width(s: &str) -> (r: usize)
    ensures
        r == display_width_of(s@),
        s@.len() == 0 ==> r == 0,
{
    unicode_width::UnicodeWidthStr::width(s)
}

/// Addition capped at usize::MAX, the model for accumulating display widths.
pub open spec fn sat_add(a: nat, b: nat) -> nat {
    if a + b > usize::MAX {
        usize::MAX as nat
    } else {
        a + b
    }
}

/// Total display width of a sequence of grapheme clusters: the sum of the
/// clusters' widths, capped at usize::MAX.
pub open spec fn clusters_width(gs: Seq<Seq<char>>) -> nat
    decreases gs.len(),
{
    if gs.len() == 0 {
        0
    } else {
        sat_add(clusters_width(gs.drop_last()), display_width_of(gs.last()))
    }
}

/// Display width of a whole cell: the clusters' widths summed.
pub open spec fn str_width_of(s: Seq<char>) -> nat {
    clusters_width(graphemes_of(s))
}

proof fn lemma_clusters_width_bound(gs: Seq<Seq<char>>)
    ensures
        clusters_width(gs) <= usize::MAX,
    decreases gs.len(),
{
    if gs.len() > 0 {
        lemma_clusters_width_bound(gs.drop_last());
    }
}

/// The display width of a string: the sum of the display widths of its
/// grapheme clusters, capped at usize::MAX.
pub fn str_width(s: &str) -> (r: usize)
    ensures
        r == str_width_of(s@),
{
    let gs = split_graphemes(s);
    let ghost spec_gs = graphemes_of(s@);
    let mut w: usize = 0;
    let mut i: usize = 0;
    while i < gs.len()
        invariant
            i <= gs.len(),
            gs@.map_values(|g: String| g@) == spec_gs,
            spec_gs == graphemes_of(s@),
            w == clusters_width(spec_gs.take(i as int)),
        decreases gs.len() - i,
    {
        let gw = display_width(gs[i].as_str());
        proof {
            assert(gs@.map_values(|g: String| g@)[i as int] == gs@[i as int]@);
            assert(spec_gs.take(i + 1).drop_last() =~= spec_gs.take(i as int));
            assert(spec_gs.take(i + 1).last() == spec_gs[i as int]);
        }
        if gw <= usize::MAX - w {
            w = w + gw;
        } else {
            w = usize::MAX;
        }
        i = i + 1;
    }
    proof {
        assert(spec_gs.take(gs@.len() as int) =~= spec_gs);
    }
    w
}

} // verus!
