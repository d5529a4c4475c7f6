//! GeoJSON feature collections read through a mapping: point features are nodes, line
//! features pipes, and features without a geometry are told apart by their properties.

use vstd::prelude::*;

use crate::field_path::PathStep;
use crate::mapping::{
    raw_node_view, raw_pipe_view, read_raw_node, read_raw_pipe, spec_raw_node, spec_raw_pipe, MappingConfig,
    MappingError, RawNode, RawNodeView, RawPipe, RawPipeView,
};
use crate::properties::{get_key, json_step, JsonValue, PropsRef, PropsView};
use crate::text::str_eq;

verus! {

/// Why a feature collection could not be read.
#[derive(Debug, Clone, PartialEq, Eq)]
pub enum GeoJsonError {
    /// The document has no `features` array.
    NotFeatureCollection,
    /// A feature's geometry is neither a point nor a line.
    UnsupportedGeometry(String),
    /// A feature has no geometry type and no property that tells what it is.
    UnrecognizedFeature,
    /// A node or pipe could not be read through the mapping.
    Mapping(MappingError),
}

pub enum GeoJsonErrorView {
    NotFeatureCollection,
    UnsupportedGeometry(Seq<char>),
    UnrecognizedFeature,
    Mapping(MappingError),
}

pub open spec fn geojson_error_view(e: GeoJsonError) -> GeoJsonErrorView {
    match e {
        GeoJsonError::NotFeatureCollection => GeoJsonErrorView::NotFeatureCollection,
        GeoJsonError::UnsupportedGeometry(t) => GeoJsonErrorView::UnsupportedGeometry(t@),
        GeoJsonError::UnrecognizedFeature => GeoJsonErrorView::UnrecognizedFeature,
        GeoJsonError::Mapping(m) => GeoJsonErrorView::Mapping(m),
    }
}

pub open spec fn key_value(v: JsonValue, k: Seq<char>) -> Option<JsonValue> {
    json_step(v, PathStep::Key(k))
}

/// What a feature is read as.
pub enum FeatureKind {
    Node(PropsView),
    Pipe(PropsView),
    Unsupported(Seq<char>),
    Unrecognized,
}

/// The geometry type of a feature, when its geometry has a text `type`.
pub open spec fn geometry_type(f: JsonValue) -> Option<Seq<char>> {
    match key_value(f, "geometry"@) {
        Some(g) => match key_value(g, "type"@) {
            Some(JsonValue::String(t)) => Some(t@),
            _ => None,
        },
        None => None,
    }
}

pub open spec fn props_has(props: Option<JsonValue>, k: Seq<char>) -> bool {
    match props {
        Some(p) => key_value(p, k) is Some,
        None => false,
    }
}

/// A point is a node read from its properties and its geometry; a line string or multi
/// line string is a pipe; a feature without a geometry type is a pipe when it has an
/// `ID_CANA` or `NOEUD_AMONT` property, else a node when it has an `ID_NOEUD` or `id`
/// property.
pub open spec fn feature_kind(f: JsonValue) -> FeatureKind {
    let props = key_value(f, "properties"@);
    match geometry_type(f) {
        Some(t) => if t == "Point"@ {
            FeatureKind::Node(PropsView { props, geometry: key_value(f, "geometry"@), row: None })
        } else if t == "LineString"@ || t == "MultiLineString"@ {
            FeatureKind::Pipe(PropsView { props, geometry: None, row: None })
        } else {
            FeatureKind::Unsupported(t)
        },
        None => if props_has(props, "ID_CANA"@) || props_has(props, "NOEUD_AMONT"@) {
            FeatureKind::Pipe(PropsView { props, geometry: None, row: None })
        } else if props_has(props, "ID_NOEUD"@) || props_has(props, "id"@) {
            FeatureKind::Node(PropsView { props, geometry: None, row: None })
        } else {
            FeatureKind::Unrecognized
        },
    }
}

pub type Read = Result<(Seq<RawNodeView>, Seq<RawPipeView>), GeoJsonErrorView>;

/// The nodes and pipes of the features, in order; the first feature that cannot be read
/// gives the error.
pub open spec fn ingest(fs: Seq<JsonValue>, m: MappingConfig) -> Read
    decreases fs.len(),
{
    if fs.len() == 0 {
        Ok((Seq::empty(), Seq::empty()))
    } else {
        match ingest(fs.drop_last(), m) {
            Err(e) => Err(e),
            Ok((ns, ps)) => match feature_kind(fs.last()) {
                FeatureKind::Node(v) => match spec_raw_node(v, m.nodes) {
                    Ok(n) => Ok((ns.push(n), ps)),
                    Err(e) => Err(GeoJsonErrorView::Mapping(e)),
                },
                FeatureKind::Pipe(v) => match spec_raw_pipe(v, m.pipes) {
                    Ok(p) => Ok((ns, ps.push(p))),
                    Err(e) => Err(GeoJsonErrorView::Mapping(e)),
                },
                FeatureKind::Unsupported(t) => Err(GeoJsonErrorView::UnsupportedGeometry(t)),
                FeatureKind::Unrecognized => Err(GeoJsonErrorView::UnrecognizedFeature),
            },
        }
    }
}

/// The nodes and pipes of the collections in turn; a document without a `features` array
/// is an error.
pub open spec fn ingest_all(cs: Seq<JsonValue>, m: MappingConfig) -> Read
    decreases cs.len(),
{
    if cs.len() == 0 {
        Ok((Seq::empty(), Seq::empty()))
    } else {
        match ingest_all(cs.drop_last(), m) {
            Err(e) => Err(e),
            Ok((ns, ps)) => match key_value(cs.last(), "features"@) {
                Some(JsonValue::Array(a)) => match ingest(a@, m) {
                    Ok((ns2, ps2)) => Ok((ns + ns2, ps + ps2)),
                    Err(e) => Err(e),
                },
                _ => Err(GeoJsonErrorView::NotFeatureCollection),
            },
        }
    }
}

/// The nodes with the later ones of an identifier already met left out.
pub open spec fn dedupe(ns: Seq<RawNodeView>) -> Seq<RawNodeView>
    decreases ns.len(),
{
    if ns.len() == 0 {
        ns
    } else {
        let r = dedupe(ns.drop_last());
        if exists|j: int| 0 <= j < ns.len() - 1 && (#[trigger] ns[j]).id == ns.last().id {
            r
        } else {
            r.push(ns.last())
        }
    }
}

pub open spec fn nodes_view(v: Seq<RawNode>) -> Seq<RawNodeView> {
    v.map_values(|n: RawNode| raw_node_view(n))
}

pub open spec fn pipes_view(v: Seq<RawPipe>) -> Seq<RawPipeView> {
    v.map_values(|p: RawPipe| raw_pipe_view(p))
}

fn geometry_type_of(f: &JsonValue) -> (r: Option<&String>)
    ensures
        match r {
            Some(t) => geometry_type(*f) == Some(t@),
            None => geometry_type(*f) is None,
        },
{
    match get_key(f, "geometry") {
        Some(g) => match get_key(g, "type") {
            Some(JsonValue::String(t)) => Some(t),
            _ => None,
        },
        None => None,
    }
}

fn has_key(props: Option<&JsonValue>, k: &str) -> (r: bool)
    ensures
        r == props_has(
            match props {
                Some(p) => Some(*p),
                None => None,
            },
            k@,
        ),
{
    match props {
        Some(p) => get_key(p, k).is_some(),
        None => false,
    }
}

/// Reads one feature into `nodes` or `pipes` (see `feature_kind`).
fn read_feature(
    f: &JsonValue,
    mapping: &MappingConfig,
    nodes: &mut Vec<RawNode>,
    pipes: &mut Vec<RawPipe>,
) -> (r: Result<(), GeoJsonError>)
    ensures
        match r {
            Ok(()) => match feature_kind(*f) {
                FeatureKind::Node(v) => spec_raw_node(v, mapping.nodes) matches Ok(n)
                    && nodes_view(final(nodes)@) == nodes_view(old(nodes)@).push(n) && final(pipes)@ == old(pipes)@,
                FeatureKind::Pipe(v) => spec_raw_pipe(v, mapping.pipes) matches Ok(p)
                    && pipes_view(final(pipes)@) == pipes_view(old(pipes)@).push(p) && final(nodes)@ == old(nodes)@,
                _ => false,
            },
            Err(e) => match feature_kind(*f) {
                FeatureKind::Node(v) => spec_raw_node(v, mapping.nodes) matches Err(x)
                    && geojson_error_view(e) == GeoJsonErrorView::Mapping(x),
                FeatureKind::Pipe(v) => spec_raw_pipe(v, mapping.pipes) matches Err(x)
                    && geojson_error_view(e) == GeoJsonErrorView::Mapping(x),
                FeatureKind::Unsupported(t) => geojson_error_view(e) == GeoJsonErrorView::UnsupportedGeometry(t),
                FeatureKind::Unrecognized => geojson_error_view(e) == GeoJsonErrorView::UnrecognizedFeature,
            },
        },
{
    let props = get_key(f, "properties");
    let geom = get_key(f, "geometry");
    proof {
        reveal_strlit("Point");
        reveal_strlit("LineString");
        reveal_strlit("MultiLineString");
    }
    let node_src: Option<PropsRef> = match geometry_type_of(f) {
        Some(t) => {
            if str_eq(t.as_str(), "Point") {
                Some(PropsRef { props, geometry: geom })
            } else if str_eq(t.as_str(), "LineString") || str_eq(t.as_str(), "MultiLineString") {
                None
            } else {
                return Err(GeoJsonError::UnsupportedGeometry(t.clone()));
            }
        },
        None => {
            if has_key(props, "ID_CANA") || has_key(props, "NOEUD_AMONT") {
                None
            } else if has_key(props, "ID_NOEUD") || has_key(props, "id") {
                Some(PropsRef { props, geometry: None })
            } else {
                return Err(GeoJsonError::UnrecognizedFeature);
            }
        },
    };
    match node_src {
        Some(src) => match read_raw_node(&src, mapping) {
            Ok(n) => {
                let ghost before = nodes@;
                nodes.push(n);
                assert(nodes_view(nodes@) =~= nodes_view(before).push(raw_node_view(n)));
                Ok(())
            },
            Err(e) => Err(GeoJsonError::Mapping(e)),
        },
        None => {
            let src = PropsRef { props, geometry: None };
            match read_raw_pipe(&src, mapping) {
                Ok(p) => {
                    let ghost before = pipes@;
                    pipes.push(p);
                    assert(pipes_view(pipes@) =~= pipes_view(before).push(raw_pipe_view(p)));
                    Ok(())
                },
                Err(e) => Err(GeoJsonError::Mapping(e)),
            }
        },
    }
}

/// The nodes and pipes of an import.
pub struct ImportedNetwork {
    pub nodes: Vec<RawNode>,
    pub pipes: Vec<RawPipe>,
}

/// Reads the features of one collection (see `ingest`), after what `nodes` and `pipes`
/// already hold.
fn ingest_features(
    fs: &Vec<JsonValue>,
    mapping: &MappingConfig,
    nodes: &mut Vec<RawNode>,
    pipes: &mut Vec<RawPipe>,
) -> (r: Result<(), GeoJsonError>)
    ensures
        match ingest(fs@, *mapping) {
            Ok((ns, ps)) => r is Ok && nodes_view(final(nodes)@) == nodes_view(old(nodes)@) + ns
                && pipes_view(final(pipes)@) == pipes_view(old(pipes)@) + ps,
            Err(e) => r matches Err(x) && geojson_error_view(x) == e,
        },
{
    let ghost n0 = nodes_view(nodes@);
    let ghost p0 = pipes_view(pipes@);
    let mut i: usize = 0;
    assert(fs@.take(0) =~= Seq::<JsonValue>::empty());
    assert(n0 + Seq::<RawNodeView>::empty() =~= n0);
    assert(p0 + Seq::<RawPipeView>::empty() =~= p0);
    while i < fs.len()
        invariant
            i <= fs@.len(),
            ingest(fs@.take(i as int), *mapping) matches Ok((ns, ps)) && nodes_view(nodes@) == n0 + ns
                && pipes_view(pipes@) == p0 + ps,
        decreases fs@.len() - i,
    {
        let ghost pre = ingest(fs@.take(i as int), *mapping);
        assert(fs@.take(i + 1).drop_last() =~= fs@.take(i as int));
        assert(fs@.take(i + 1).last() == fs@[i as int]);
        let ghost nb = nodes@;
        let ghost pb = pipes@;
        match read_feature(&fs[i], mapping, nodes, pipes) {
            Err(e) => {
                proof {
                    lemma_ingest_error_stays(fs@, *mapping, i as int + 1);
                }
                return Err(e);
            },
            Ok(()) => {
                proof {
                    let (ns, ps) = pre->Ok_0;
                    match feature_kind(fs@[i as int]) {
                        FeatureKind::Node(v) => {
                            let n = spec_raw_node(v, mapping.nodes).unwrap();
                            assert(nodes_view(nodes@) =~= n0 + ns.push(n));
                            assert(pipes@ == pb);
                        },
                        FeatureKind::Pipe(v) => {
                            let p = spec_raw_pipe(v, mapping.pipes).unwrap();
                            assert(pipes_view(pipes@) =~= p0 + ps.push(p));
                            assert(nodes@ == nb);
                        },
                        _ => {},
                    }
                }
            },
        }
        i = i + 1;
    }
    assert(fs@.take(fs@.len() as int) =~= fs@);
    Ok(())
}

/// Once the features read so far fail, reading more fails with the same error.
proof fn lemma_ingest_error_stays(fs: Seq<JsonValue>, m: MappingConfig, k: int)
    requires
        0 <= k <= fs.len(),
        ingest(fs.take(k), m) is Err,
    ensures
        ingest(fs, m) == ingest(fs.take(k), m),
    decreases fs.len() - k,
{
    if k < fs.len() {
        assert(fs.take(k + 1).drop_last() =~= fs.take(k));
        lemma_ingest_error_stays(fs, m, k + 1);
    } else {
        assert(fs.take(k) =~= fs);
    }
}

proof fn lemma_all_error_stays(cs: Seq<JsonValue>, m: MappingConfig, k: int)
    requires
        0 <= k <= cs.len(),
        ingest_all(cs.take(k), m) is Err,
    ensures
        ingest_all(cs, m) == ingest_all(cs.take(k), m),
    decreases cs.len() - k,
{
    if k < cs.len() {
        assert(cs.take(k + 1).drop_last() =~= cs.take(k));
        lemma_all_error_stays(cs, m, k + 1);
    } else {
        assert(cs.take(k) =~= cs);
    }
}

/// Keeps the first node of each identifier, in order (see `dedupe`).
fn dedupe_nodes(nodes: Vec<RawNode>) -> (r: Vec<RawNode>)
    ensures
        nodes_view(r@) == dedupe(nodes_view(nodes@)),
{
    let ghost nv = nodes_view(nodes@);
    let mut kept: Vec<RawNode> = Vec::new();
    let mut seen: Vec<String> = Vec::new();
    let mut rest = nodes;
    let ghost all = rest@;
    let mut i: usize = 0;
    let ghost taken: Seq<RawNode> = Seq::empty();
    assert(nv.take(0) =~= Seq::<RawNodeView>::empty());
    assert(all.skip(0) =~= all);
    assert(all.len() == rest.len());
    while rest.len() > 0
        invariant
            nv == nodes_view(all),
            i + rest@.len() == all.len(),
            all.len() <= usize::MAX,
            rest@ == all.skip(i as int),
            nodes_view(kept@) == dedupe(nv.take(i as int)),
            seen@.len() == i,
            forall|j: int| 0 <= j < i ==> (#[trigger] seen@[j])@ == nv[j].id,
        decreases rest@.len(),
    {
        let n = rest.remove(0);
        assert(n == all[i as int]);
        assert(rest@ =~= all.skip(i + 1));
        let ghost cur = nv.take(i + 1);
        assert(cur.drop_last() =~= nv.take(i as int));
        assert(cur.last() == nv[i as int]);
        assert(nv[i as int] == raw_node_view(n));
        let mut dup = false;
        let mut k: usize = 0;
        while k < seen.len()
            invariant
                k <= seen@.len(),
                dup <==> exists|j: int| 0 <= j < k && (#[trigger] seen@[j])@ == n.id@,
            decreases seen@.len() - k,
        {
            if str_eq(seen[k].as_str(), n.id.as_str()) {
                dup = true;
            }
            k = k + 1;
        }
        proof {
            if dup {
                let j = choose|j: int| 0 <= j < seen@.len() && (#[trigger] seen@[j])@ == n.id@;
                assert(cur[j] == nv[j]);
                assert(cur[j].id == cur.last().id);
            } else {
                assert forall|j: int| 0 <= j < cur.len() - 1 implies (#[trigger] cur[j]).id != cur.last().id by {
                    assert(cur[j] == nv[j]);
                    assert(seen@[j]@ == nv[j].id);
                }
            }
        }
        let ghost before = kept@;
        let id = n.id.clone();
        if !dup {
            kept.push(n);
            assert(nodes_view(kept@) =~= nodes_view(before).push(raw_node_view(n)));
        }
        seen.push(id);
        i = i + 1;
    }
    assert(nv.take(i as int) =~= nv);
    kept
}

/// The nodes and pipes of the feature collections, in order, with the later nodes of an
/// identifier already read left out (see `ingest_all` and `dedupe`).
pub fn import_feature_collections(collections: &Vec<JsonValue>, mapping: &MappingConfig) -> (r: Result<ImportedNetwork, GeoJsonError>)
    ensures
        match ingest_all(collections@, *mapping) {
            Ok((ns, ps)) => r matches Ok(net) && nodes_view(net.nodes@) == dedupe(ns) && pipes_view(net.pipes@) == ps,
            Err(e) => r matches Err(x) && geojson_error_view(x) == e,
        },
{
    let mut nodes: Vec<RawNode> = Vec::new();
    let mut pipes: Vec<RawPipe> = Vec::new();
    let mut c: usize = 0;
    assert(collections@.take(0) =~= Seq::<JsonValue>::empty());
    assert(nodes_view(nodes@) =~= Seq::<RawNodeView>::empty());
    assert(pipes_view(pipes@) =~= Seq::<RawPipeView>::empty());
    while c < collections.len()
        invariant
            c <= collections@.len(),
            ingest_all(collections@.take(c as int), *mapping) matches Ok((ns, ps)) && nodes_view(nodes@) == ns
                && pipes_view(pipes@) == ps,
        decreases collections@.len() - c,
    {
        assert(collections@.take(c + 1).drop_last() =~= collections@.take(c as int));
        assert(collections@.take(c + 1).last() == collections@[c as int]);
        let feats = match get_key(&collections[c], "features") {
            Some(JsonValue::Array(a)) => a,
            _ => {
                proof {
                    lemma_all_error_stays(collections@, *mapping, c as int + 1);
                }
                return Err(GeoJsonError::NotFeatureCollection);
            },
        };
        match ingest_features(feats, mapping, &mut nodes, &mut pipes) {
            Err(e) => {
                proof {
                    lemma_all_error_stays(collections@, *mapping, c as int + 1);
                }
                return Err(e);
            },
            Ok(()) => {},
        }
        c = c + 1;
    }
    assert(collections@.take(collections@.len() as int) =~= collections@);
    let kept = dedupe_nodes(nodes);
    Ok(ImportedNetwork { nodes: kept, pipes })
}

proof fn lemma_dedupe_from(ns: Seq<RawNodeView>)
    ensures
        forall|i: int| 0 <= i < dedupe(ns).len() ==> ns.contains(#[trigger] dedupe(ns)[i]),
    decreases ns.len(),
{
    if ns.len() > 0 {
        let init = ns.drop_last();
        lemma_dedupe_from(init);
        let r = dedupe(init);
        let d = dedupe(ns);
        assert forall|i: int| 0 <= i < d.len() implies ns.contains(#[trigger] d[i]) by {
            if i < r.len() {
                assert(d[i] == r[i]);
                assert(init.contains(r[i]));
                let k = choose|k: int| 0 <= k < init.len() && init[k] == r[i];
                assert(ns[k] == r[i]);
            } else {
                assert(ns[ns.len() - 1] == d[i]);
            }
        }
    }
}

proof fn lemma_dedupe_covers(ns: Seq<RawNodeView>)
    ensures
        forall|i: int| 0 <= i < ns.len() ==> exists|j: int| 0 <= j < dedupe(ns).len() && (#[trigger] dedupe(ns)[j]).id == (#[trigger] ns[i]).id,
    decreases ns.len(),
{
    if ns.len() > 0 {
        let init = ns.drop_last();
        lemma_dedupe_covers(init);
        let r = dedupe(init);
        let d = dedupe(ns);
        let x = ns.last();
        assert forall|i: int| 0 <= i < ns.len() implies exists|j: int| 0 <= j < d.len() && (#[trigger] d[j]).id == (#[trigger] ns[i]).id by {
            if i < ns.len() - 1 {
                assert(ns[i] == init[i]);
                let j = choose|j: int| 0 <= j < r.len() && (#[trigger] r[j]).id == init[i].id;
                assert(d[j] == r[j]);
            } else if exists|k: int| 0 <= k < ns.len() - 1 && (#[trigger] ns[k]).id == x.id {
                let k = choose|k: int| 0 <= k < ns.len() - 1 && (#[trigger] ns[k]).id == x.id;
                assert(ns[k] == init[k]);
                let j = choose|j: int| 0 <= j < r.len() && (#[trigger] r[j]).id == init[k].id;
                assert(d[j] == r[j]);
            } else {
                assert(d[r.len() as int] == x);
            }
        }
    }
}

proof fn lemma_dedupe_distinct(ns: Seq<RawNodeView>)
    ensures
        forall|i: int, j: int| 0 <= i < j < dedupe(ns).len() ==> (#[trigger] dedupe(ns)[i]).id != (#[trigger] dedupe(ns)[j]).id,
    decreases ns.len(),
{
    if ns.len() > 0 {
        let init = ns.drop_last();
        lemma_dedupe_distinct(init);
        lemma_dedupe_from(init);
        let r = dedupe(init);
        let d = dedupe(ns);
        let x = ns.last();
        if !(exists|k: int| 0 <= k < ns.len() - 1 && (#[trigger] ns[k]).id == x.id) {
            assert forall|i: int, j: int| 0 <= i < j < d.len() implies (#[trigger] d[i]).id != (#[trigger] d[j]).id by {
                if j == r.len() {
                    assert(d[i] == r[i]);
                    assert(init.contains(r[i]));
                    let k = choose|k: int| 0 <= k < init.len() && init[k] == r[i];
                    assert(ns[k] == init[k]);
                } else {
                    assert(d[i] == r[i] && d[j] == r[j]);
                }
            }
        }
    }
}

/// The nodes kept are among the given ones, carry each given identifier, and carry no
/// identifier twice.
pub proof fn lemma_dedupe_ids(ns: Seq<RawNodeView>)
    ensures
        forall|i: int| 0 <= i < dedupe(ns).len() ==> ns.contains(#[trigger] dedupe(ns)[i]),
        forall|i: int| 0 <= i < ns.len() ==> exists|j: int| 0 <= j < dedupe(ns).len() && (#[trigger] dedupe(ns)[j]).id == (#[trigger] ns[i]).id,
        forall|i: int, j: int| 0 <= i < j < dedupe(ns).len() ==> (#[trigger] dedupe(ns)[i]).id != (#[trigger] dedupe(ns)[j]).id,
{
    lemma_dedupe_from(ns);
    lemma_dedupe_covers(ns);
    lemma_dedupe_distinct(ns);
}

} // verus!
