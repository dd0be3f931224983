//! T1: surface and label.

use vstd::prelude::*;

use crate::frame::cull::{particles_at, TierLevel};

verus! {

/// The label pass.
pub struct T1Pass;

impl T1Pass {
    pub fn new() -> (pass: Self)
        ensures
            pass == T1Pass,
    {
        T1Pass
    }

    /// The particles to draw labels for: those at T1, in the order of `visible`.
    pub fn draw_labels(&self, visible: &[(u32, TierLevel)]) -> (out: Vec<u32>)
        ensures
            out@ == crate::frame::cull::indices_where(visible@, |t: TierLevel| t == TierLevel::T1),
    {
        particles_at(visible, TierLevel::T1)
    }
}

impl Default for T1Pass {
    fn default() -> (pass: Self)
        ensures
            pass == T1Pass,
    {
        T1Pass
    }
}

/// Where an edge's label is anchored on screen, and its depth.
#[derive(Debug)]
pub struct LabelAnchor<S> {
    pub screen_pos: [S; 2],
    pub depth: S,
}

/// Label of an edge.
#[derive(Debug)]
pub struct EdgeLabel<S> {
    /// anchor on screen, in pixels
    pub screen_pos: [S; 2],
    /// both ends, by title
    pub text: String,
    /// depth, for sorting
    pub depth: S,
}

/// How many characters of a title a label shows.
pub const TITLE_CHARS: usize = 8;

/// Whether particle `i` has a position among `coords` coordinates.
pub fn has_position(i: u32, coords: usize) -> (r: bool)
    ensures
        r == (3 * i + 2 < coords),
{
    (i as u64) * 3 + 2 < coords as u64
}

/// The beginning of a title.
pub open spec fn shortened(title: Seq<char>) -> Seq<char> {
    if title.len() < TITLE_CHARS {
        title
    } else {
        title.take(TITLE_CHARS as int)
    }
}

/// What a label calls particle `i`: the beginning of its title, or a question mark.
pub open spec fn name_of(titles: Seq<String>, i: int) -> Seq<char> {
    if i < titles.len() {
        shortened(titles[i]@)
    } else {
        "?"@
    }
}

/// The text of an edge's label.
pub open spec fn label_text(titles: Seq<String>, edge: (u32, u32)) -> Seq<char> {
    name_of(titles, edge.0 as int) + "→"@ + name_of(titles, edge.1 as int)
}

fn short_name(titles: &[String], i: u32) -> (r: String)
    ensures
        r@ == name_of(titles@, i as int),
{
    if (i as usize) < titles.len() {
        let title = titles[i as usize].as_str();
        let count: usize = title.unicode_len();
        let shown: usize = if count < TITLE_CHARS {
            count
        } else {
            TITLE_CHARS
        };
        let text = title.substring_char(0, shown).to_owned();
        assert(text@ =~= shortened(title@));
        text
    } else {
        String::from_str("?")
    }
}

/// The labels of the first `count` edges: one for each that has an anchor.
pub open spec fn is_labelling<S>(
    edges: Seq<(u32, u32)>,
    titles: Seq<String>,
    anchors: Seq<Option<LabelAnchor<S>>>,
    count: nat,
    labels: Seq<EdgeLabel<S>>,
) -> bool
    decreases count,
{
    if count == 0 {
        labels.len() == 0
    } else {
        let k = count - 1;
        match anchors[k] {
            None => is_labelling(edges, titles, anchors, k as nat, labels),
            Some(anchor) => {
                &&& labels.len() > 0
                &&& labels.last().screen_pos == anchor.screen_pos
                &&& labels.last().depth == anchor.depth
                &&& labels.last().text@ == label_text(titles, edges[k])
                &&& is_labelling(edges, titles, anchors, k as nat, labels.drop_last())
            },
        }
    }
}

/// The labels of the edges that are in view. `anchors` holds where the middle of each edge
/// appears on screen, if it does.
pub fn compute_edge_labels<S: Copy>(
    edge_list: &[(u32, u32)],
    titles: &[String],
    anchors: &[Option<LabelAnchor<S>>],
) -> (labels: Vec<EdgeLabel<S>>)
    requires
        anchors.len() == edge_list.len(),
    ensures
        is_labelling(edge_list@, titles@, anchors@, edge_list@.len(), labels@),
{
    let mut labels: Vec<EdgeLabel<S>> = Vec::new();
    let mut k: usize = 0;
    while k < edge_list.len()
        invariant
            k <= edge_list.len(),
            anchors.len() == edge_list.len(),
            is_labelling(edge_list@, titles@, anchors@, k as nat, labels@),
        decreases edge_list.len() - k,
    {
        let ghost before = labels@;
        let edge: (u32, u32) = edge_list[k];
        match &anchors[k] {
            Some(anchor) => {
                let to = short_name(titles, edge.1);
                let text = short_name(titles, edge.0).concat("→").concat(to.as_str());
                labels.push(
                    EdgeLabel { screen_pos: anchor.screen_pos, text, depth: anchor.depth },
                );
                assert(labels@.drop_last() =~= before);
            },
            None => {},
        }
        k = k + 1;
    }
    labels
}

/// Law: a title of up to eight characters is shown whole, a longer one by its first eight.
pub proof fn law_titles_show_eight_characters(title: Seq<char>)
    ensures
        title.len() <= 8 ==> shortened(title) == title,
        title.len() > 8 ==> shortened(title).len() == 8,
        shortened(title).is_prefix_of(title),
{
    assert(title.take(title.len() as int) =~= title);
}

/// Law: a label reads from one end to the other: what the first end is called, an arrow, and what
/// the second is called; an end without a title is called by a question mark.
pub proof fn law_labels_read_from_end_to_end(titles: Seq<String>, from: u32, to: u32)
    ensures
        label_text(titles, (from, to)) == name_of(titles, from as int) + "→"@ + name_of(
            titles,
            to as int,
        ),
        from < titles.len() && titles[from as int]@.len() <= 8 ==> name_of(titles, from as int)
            == titles[from as int]@,
        from < titles.len() && titles[from as int]@.len() > 8 ==> name_of(titles, from as int)
            == titles[from as int]@.subrange(0, 8),
        titles.len() <= from ==> name_of(titles, from as int) == "?"@,
{
    if from < titles.len() {
        let title = titles[from as int]@;
        law_titles_show_eight_characters(title);
        assert(title.len() > 8 ==> shortened(title) =~= title.subrange(0, 8));
    }
}

/// Law: there are as many labels as edges with an anchor, and the label of such an edge stands
/// after those of the edges before it, at the edge's anchor, with the edge's text.
pub proof fn law_anchored_edges_are_labelled<S>(
    edges: Seq<(u32, u32)>,
    titles: Seq<String>,
    anchors: Seq<Option<LabelAnchor<S>>>,
    count: nat,
    labels: Seq<EdgeLabel<S>>,
    k: int,
)
    requires
        is_labelling(edges, titles, anchors, count, labels),
        count <= anchors.len(),
    ensures
        labels.len() == anchors.take(count as int).filter(
            |a: Option<LabelAnchor<S>>| a is Some,
        ).len(),
        0 <= k < count && anchors[k] is Some ==> {
            let m = anchors.take(k).filter(|a: Option<LabelAnchor<S>>| a is Some).len() as int;
            let anchor = anchors[k].unwrap();
            &&& m < labels.len()
            &&& labels[m].screen_pos == anchor.screen_pos
            &&& labels[m].depth == anchor.depth
            &&& labels[m].text@ == label_text(titles, edges[k])
        },
    decreases count,
{
    reveal(Seq::filter);
    if count > 0 {
        let last = count - 1;
        assert(anchors.take(count as int).drop_last() =~= anchors.take(last));
        assert(anchors.take(count as int).last() == anchors[last]);
        if anchors[last] is Some {
            law_anchored_edges_are_labelled(
                edges,
                titles,
                anchors,
                last as nat,
                labels.drop_last(),
                k,
            );
        } else {
            law_anchored_edges_are_labelled(edges, titles, anchors, last as nat, labels, k);
        }
    }
}

/// Fragment shader of the T1 impostor.
pub const T1_IMPOSTOR_MSL: &'static str = r#"
#include <metal_stdlib>
using namespace metal;

struct VertexOut {
    float4 position [[position]];
    float2 uv;
    float3 center_world;
    float  radius;
    float  focus;      // φ* luminance driver
};

fragment float4 t1_impostor_frag(
    VertexOut in [[stage_in]],
    constant float4x4 &view_proj [[buffer(0)]])
{
    // Ray-sphere SDF in clip-quad space.
    float2 d = in.uv * 2.0 - 1.0;
    float r2 = dot(d, d);
    if (r2 > 1.0) discard_fragment();

    // Normal from SDF.
    float3 normal = float3(d, sqrt(1.0 - r2));

    // Diffuse + focus luminance.
    float diffuse = max(0.0, dot(normal, float3(0.577, 0.577, 0.577)));
    float luma    = mix(0.2, 1.0, in.focus) * diffuse;

    return float4(luma, luma, luma, 1.0);
}
"#;

} // verus!
