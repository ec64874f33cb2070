use vstd::prelude::*;

use crate::geometry::Point;

verus! {

/// One resource node of the map, at whole map units.
#[derive(Debug)]
pub struct ResourceMarker {
    pub path_name: String,
    pub x: i64,
    pub y: i64,
    pub z: i64,
    pub kind: Option<String>,
    pub purity: String,
    pub obstructed: Option<bool>,
    pub last_check: String,
}

/// A layer of the map: one resource of one purity, with its nodes.
#[derive(Debug)]
pub struct ResourceLayer {
    pub layer_id: String,
    pub name: String,
    pub purity: Option<String>,
    pub outside_color: String,
    pub inside_color: String,
    pub icon: String,
    pub markers: Vec<ResourceMarker>,
}

/// A group of layers.
#[derive(Debug)]
pub struct ResourceCategory {
    pub name: String,
    pub kind: Option<String>,
    pub options: Vec<ResourceLayer>,
}

/// A tab of the map's resource listing.
#[derive(Debug)]
pub struct Resources {
    pub tab_id: String,
    pub name: String,
    pub options: Vec<ResourceCategory>,
}

/// The map data: tabs of categories of layers of markers.
#[derive(Debug)]
pub struct MapData {
    pub options: Vec<Resources>,
    pub version: i64,
    pub last_build: String,
}

/// Two layers hold the same fields and the same markers.
pub open spec fn layer_matches(a: ResourceLayer, b: ResourceLayer) -> bool {
    &&& a.layer_id == b.layer_id
    &&& a.name == b.name
    &&& a.purity == b.purity
    &&& a.outside_color == b.outside_color
    &&& a.inside_color == b.inside_color
    &&& a.icon == b.icon
    &&& a.markers@ == b.markers@
}

pub open spec fn layers_match(a: Seq<ResourceLayer>, b: Seq<ResourceLayer>) -> bool {
    a.len() == b.len() && forall|j: int| 0 <= j < a.len() ==> #[trigger] layer_matches(a[j], b[j])
}

/// The layers of a tab, category by category.
pub open spec fn tab_layers(r: Resources) -> Seq<ResourceLayer> {
    r.options@.map_values(|c: ResourceCategory| c.options@).flatten()
}

/// All layers of the map, tab by tab.
pub open spec fn map_layers(m: MapData) -> Seq<ResourceLayer> {
    m.options@.map_values(|r: Resources| tab_layers(r)).flatten()
}

/// The markers of a sequence of layers, layer by layer.
pub open spec fn layer_markers(ls: Seq<ResourceLayer>) -> Seq<ResourceMarker> {
    ls.map_values(|l: ResourceLayer| l.markers@).flatten()
}

fn copy_text(o: &Option<String>) -> (r: Option<String>)
    ensures
        r == *o,
{
    match o {
        Some(s) => Some(s.clone()),
        None => None,
    }
}

impl ResourceMarker {
    /// A copy of the marker.
    pub fn duplicate(&self) -> (r: ResourceMarker)
        ensures
            r == *self,
    {
        ResourceMarker {
            path_name: self.path_name.clone(),
            x: self.x,
            y: self.y,
            z: self.z,
            kind: copy_text(&self.kind),
            purity: self.purity.clone(),
            obstructed: self.obstructed,
            last_check: self.last_check.clone(),
        }
    }

    /// Where the marker stands on the map.
    pub fn position(&self) -> (r: Point)
        ensures
            r == (Point { x: self.x, y: self.y }),
    {
        Point { x: self.x, y: self.y }
    }
}

/// Appends copies of `src`'s markers to `out`.
fn extend_markers(out: &mut Vec<ResourceMarker>, src: &Vec<ResourceMarker>)
    ensures
        final(out)@ == old(out)@ + src@,
{
    let ghost start = out@;
    let mut i: usize = 0;
    while i < src.len()
        invariant
            i <= src.len(),
            out@ == start + src@.take(i as int),
        decreases src.len() - i,
    {
        out.push(src[i].duplicate());
        i = i + 1;
        assert(out@ =~= start + src@.take(i as int));
    }
    assert(src@.take(i as int) =~= src@);
}

impl ResourceLayer {
    /// A copy of the layer.
    pub fn duplicate(&self) -> (r: ResourceLayer)
        ensures
            layer_matches(r, *self),
    {
        let mut markers: Vec<ResourceMarker> = Vec::new();
        extend_markers(&mut markers, &self.markers);
        assert(markers@ =~= self.markers@);
        ResourceLayer {
            layer_id: self.layer_id.clone(),
            name: self.name.clone(),
            purity: copy_text(&self.purity),
            outside_color: self.outside_color.clone(),
            inside_color: self.inside_color.clone(),
            icon: self.icon.clone(),
            markers,
        }
    }
}

proof fn lemma_flatten_step<A, B>(s: Seq<A>, f: spec_fn(A) -> Seq<B>, i: int)
    requires
        0 <= i < s.len(),
    ensures
        s.take(i + 1).map_values(f).flatten() == s.take(i).map_values(f).flatten() + f(s[i]),
{
    assert(s.take(i + 1).map_values(f) =~= s.take(i).map_values(f).push(f(s[i])));
    s.take(i).map_values(f).lemma_flatten_push(f(s[i]));
}

proof fn lemma_layer_markers_push(a: Seq<ResourceLayer>, b: Seq<ResourceLayer>, l: ResourceLayer, m: ResourceLayer)
    requires
        layers_match(a, b),
        layer_matches(l, m),
    ensures
        layers_match(a.push(l), b.push(m)),
        layer_markers(a) == layer_markers(b) ==> layer_markers(a.push(l)) == layer_markers(b.push(m)),
{
    assert(a.push(l).map_values(|x: ResourceLayer| x.markers@) =~= a.map_values(|x: ResourceLayer| x.markers@).push(l.markers@));
    assert(b.push(m).map_values(|x: ResourceLayer| x.markers@) =~= b.map_values(|x: ResourceLayer| x.markers@).push(m.markers@));
    a.map_values(|x: ResourceLayer| x.markers@).lemma_flatten_push(l.markers@);
    b.map_values(|x: ResourceLayer| x.markers@).lemma_flatten_push(m.markers@);
    assert forall|j: int| 0 <= j < a.len() + 1 implies #[trigger] layer_matches(a.push(l)[j], b.push(m)[j]) by {
        if j < a.len() {
            assert(layer_matches(a[j], b[j]));
        }
    }
}

/// Appends copies of the layers in `src`, and of their markers, to `layers` and `markers`.
fn extend_layers(layers: &mut Vec<ResourceLayer>, markers: &mut Vec<ResourceMarker>, src: &Vec<ResourceLayer>)
    ensures
        layers_match(final(layers)@, old(layers)@ + src@),
        final(markers)@ == old(markers)@ + layer_markers(src@),
{
    let ghost l0 = layers@;
    let ghost m0 = markers@;
    let ghost f = |x: ResourceLayer| x.markers@;
    let mut i: usize = 0;
    assert(layers_match(layers@, l0 + src@.take(0)));
    assert(src@.take(0).map_values(f) =~= Seq::<Seq<ResourceMarker>>::empty());
    while i < src.len()
        invariant
            i <= src.len(),
            f == (|x: ResourceLayer| x.markers@),
            layers_match(layers@, l0 + src@.take(i as int)),
            markers@ == m0 + src@.take(i as int).map_values(f).flatten(),
        decreases src.len() - i,
    {
        let l: ResourceLayer = src[i].duplicate();
        proof {
            lemma_flatten_step(src@, f, i as int);
            assert(l0 + src@.take(i + 1) =~= (l0 + src@.take(i as int)).push(src@[i as int]));
            lemma_layer_markers_push(layers@, l0 + src@.take(i as int), l, src@[i as int]);
        }
        extend_markers(markers, &src[i].markers);
        layers.push(l);
        i = i + 1;
        proof {
            assert(markers@ =~= m0 + src@.take(i as int).map_values(f).flatten());
        }
    }
    assert(src@.take(i as int) =~= src@);
}

proof fn lemma_layer_markers_append(a: Seq<ResourceLayer>, b: Seq<ResourceLayer>)
    ensures
        layer_markers(a + b) == layer_markers(a) + layer_markers(b),
    decreases b.len(),
{
    if b.len() == 0 {
        assert(a + b =~= a);
        assert(b.map_values(|x: ResourceLayer| x.markers@) =~= Seq::<Seq<ResourceMarker>>::empty());
        assert(layer_markers(a) + layer_markers(b) =~= layer_markers(a));
    } else {
        lemma_layer_markers_append(a, b.drop_last());
        assert(a + b =~= (a + b.drop_last()).push(b.last()));
        assert(b =~= b.drop_last().push(b.last()));
        let f = |x: ResourceLayer| x.markers@;
        assert((a + b).map_values(f) =~= (a + b.drop_last()).map_values(f).push(f(b.last())));
        assert(b.map_values(f) =~= b.drop_last().map_values(f).push(f(b.last())));
        (a + b.drop_last()).map_values(f).lemma_flatten_push(f(b.last()));
        b.drop_last().map_values(f).lemma_flatten_push(f(b.last()));
        assert(layer_markers(a) + layer_markers(b) =~= layer_markers(a) + layer_markers(b.drop_last()) + f(b.last()));
    }
}

proof fn lemma_layers_match_same_markers(a: Seq<ResourceLayer>, b: Seq<ResourceLayer>)
    requires
        layers_match(a, b),
    ensures
        layer_markers(a) == layer_markers(b),
{
    let f = |x: ResourceLayer| x.markers@;
    assert forall|j: int| 0 <= j < a.len() implies #[trigger] a.map_values(f)[j] == b.map_values(f)[j] by {
        assert(layer_matches(a[j], b[j]));
    }
    assert(a.map_values(f) =~= b.map_values(f));
}

impl MapData {
    /// All layers of the map, tab by tab and category by category, and the
    /// markers of those layers in the same order.
    pub fn extract_layers_and_markers(&self) -> (r: (Vec<ResourceLayer>, Vec<ResourceMarker>))
        ensures
            layers_match(r.0@, map_layers(*self)),
            r.1@ == layer_markers(map_layers(*self)),
    {
        let mut markers: Vec<ResourceMarker> = Vec::new();
        let mut layers: Vec<ResourceLayer> = Vec::new();
        let ghost tf = |r: Resources| tab_layers(r);
        let ghost cf = |c: ResourceCategory| c.options@;
        let mut t: usize = 0;
        assert(self.options@.take(0).map_values(tf) =~= Seq::<Seq<ResourceLayer>>::empty());
        while t < self.options.len()
            invariant
                t <= self.options.len(),
                tf == (|r: Resources| tab_layers(r)),
                cf == (|c: ResourceCategory| c.options@),
                layers_match(layers@, self.options@.take(t as int).map_values(tf).flatten()),
                markers@ == layer_markers(self.options@.take(t as int).map_values(tf).flatten()),
            decreases self.options.len() - t,
        {
            let tab: &Resources = &self.options[t];
            let ghost before = self.options@.take(t as int).map_values(tf).flatten();
            let mut c: usize = 0;
            assert(tab.options@.take(0).map_values(cf) =~= Seq::<Seq<ResourceLayer>>::empty());
            assert(before + Seq::<ResourceLayer>::empty() =~= before);
            while c < tab.options.len()
                invariant
                    c <= tab.options.len(),
                    cf == (|c: ResourceCategory| c.options@),
                    layers_match(layers@, before + tab.options@.take(c as int).map_values(cf).flatten()),
                    markers@ == layer_markers(before + tab.options@.take(c as int).map_values(cf).flatten()),
                decreases tab.options.len() - c,
            {
                let ghost mid = before + tab.options@.take(c as int).map_values(cf).flatten();
                let ghost lmid = layers@;
                extend_layers(&mut layers, &mut markers, &tab.options[c].options);
                c = c + 1;
                proof {
                    lemma_flatten_step(tab.options@, cf, c - 1);
                    let src = tab.options@[c - 1].options@;
                    assert(before + tab.options@.take(c as int).map_values(cf).flatten() =~= mid + src);
                    lemma_layer_markers_append(lmid, src);
                    lemma_layer_markers_append(mid, src);
                    assert forall|j: int| 0 <= j < layers@.len() implies #[trigger] layer_matches(layers@[j], (mid + src)[j]) by {
                        assert(layer_matches(layers@[j], (lmid + src)[j]));
                        if j < lmid.len() {
                            assert(layer_matches(lmid[j], mid[j]));
                        }
                    }
                    lemma_layers_match_same_markers(lmid, mid);
                }
            }
            proof {
                lemma_flatten_step(self.options@, tf, t as int);
                assert(tab.options@.take(c as int) =~= tab.options@);
            }
            t = t + 1;
        }
        assert(self.options@.take(t as int) =~= self.options@);
        (layers, markers)
    }
}

/// The positions of the markers, in order.
pub fn marker_points(markers: &Vec<ResourceMarker>) -> (r: Vec<Point>)
    ensures
        r.len() == markers.len(),
        forall|i: int| 0 <= i < r.len() ==> #[trigger] r@[i] == (Point { x: markers@[i].x, y: markers@[i].y }),
{
    let mut r: Vec<Point> = Vec::new();
    let mut i: usize = 0;
    while i < markers.len()
        invariant
            i <= markers.len(),
            r.len() == i,
            forall|j: int| 0 <= j < i ==> #[trigger] r@[j] == (Point { x: markers@[j].x, y: markers@[j].y }),
        decreases markers.len() - i,
    {
        r.push(markers[i].position());
        i = i + 1;
    }
    r
}

} // verus!
