use vstd::prelude::*;

verus! {

/// A district as it is stored in the geodata file: its location is still the
/// WKT text of its geometry.
pub struct RawBezirk {
    pub identifier: u64,
    /// The identifiers of the enclosing districts, nearest first.
    pub parents: Vec<u64>,
    pub name: String,
    pub wkt: String,
}

/// The contents of a geodata file.
pub struct GeoData {
    pub bezirke: Vec<RawBezirk>,
}

/// A district whose location has been parsed into a geometry of type `G`.
#[derive(Clone, Debug)]
pub struct Bezirk<G> {
    pub identifier: u64,
    pub parents: Vec<u64>,
    pub name: String,
    pub location: G,
}

/// All districts of a geodata file, in file order.
pub struct BezirkeData<G> {
    pub data: Vec<Bezirk<G>>,
}

/// `parsed` is `raw` with its WKT text turned into the geometry `location`
/// by `parse`.
pub open spec fn parsed_from<G, P: Fn(&String) -> G>(parse: P, raw: RawBezirk, parsed: Bezirk<G>) -> bool {
    &&& parsed.identifier == raw.identifier
    &&& parsed.parents@ == raw.parents@
    &&& parsed.name@ == raw.name@
    &&& parse.ensures((&raw.wkt,), parsed.location)
}

impl<G> BezirkeData<G> {
    /// Parses every district of `b`, in file order.
    ///
    /// `parse` turns the WKT text of a district into its geometry; where the
    /// text is not valid WKT it panics, so its `requires` must admit every
    /// district's text.
    pub fn new<P: Fn(&String) -> G>(b: GeoData, parse: P) -> (res: Self)
        requires
            forall|i: int| 0 <= i < b.bezirke.len() ==> parse.requires((&#[trigger] b.bezirke@[i].wkt,)),
        ensures
            res.data.len() == b.bezirke.len(),
            forall|i: int|
                0 <= i < b.bezirke.len() ==> parsed_from(parse, #[trigger] b.bezirke@[i], res.data@[i]),
    {
        let mut data: Vec<Bezirk<G>> = Vec::new();
        let n = b.bezirke.len();
        for i in 0..n
            invariant
                n == b.bezirke.len(),
                data.len() == i,
                forall|j: int| 0 <= j < b.bezirke.len() ==> parse.requires((&#[trigger] b.bezirke@[j].wkt,)),
                forall|j: int| 0 <= j < i ==> parsed_from(parse, #[trigger] b.bezirke@[j], data@[j]),
        {
            let e = &b.bezirke[i];
            let location = parse(&e.wkt);
            let parents = e.parents.clone();
            assert(parents@ == e.parents@);
            data.push(Bezirk { identifier: e.identifier, parents, name: e.name.clone(), location });
        }
        BezirkeData { data }
    }
}

/// Where the geodata file lies below its directory.
pub open spec fn geodata_file_suffix() -> Seq<char> {
    "/build/bezirke-12.geodata"@
}

/// The path of the geodata file: below `./geodata` when running inside the
/// Nix environment, otherwise below the directory `geo_path` (the `GEO_PATH`
/// setting).
pub fn geodata_path(in_nix: bool, geo_path: &str) -> (path: String)
    ensures
        path@ == (if in_nix { "./geodata"@ } else { geo_path@ }) + geodata_file_suffix(),
        path@ == (if in_nix { "./geodata"@ } else { geo_path@ }) + "/build/bezirke-12.geodata"@,
{
    let mut p = if in_nix { "./geodata".to_owned() } else { geo_path.to_owned() };
    p.append("/build/bezirke-12.geodata");
    p
}

/// A parsed district keeps the identifier, the parent list and the name of
/// its record, and its location is what `parse` gives for the record's WKT.
pub proof fn lemma_parsed_keeps_fields<G, P: Fn(&String) -> G>(parse: P, raw: RawBezirk, parsed: Bezirk<G>)
    requires
        parsed_from(parse, raw, parsed),
    ensures
        parsed.identifier == raw.identifier,
        parsed.parents@ == raw.parents@,
        parsed.name@ == raw.name@,
        parse.ensures((&raw.wkt,), parsed.location),
{
}

} // verus!
