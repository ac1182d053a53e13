//! The sources of a source map.
use parcel_sourcemap::SourceMap;
use vstd::prelude::*;

verus! {

/// `parcel_sourcemap::SourceMap`.
#[verifier::external_type_specification]
#[verifier::external_body]
pub struct ExSourceMap(parcel_sourcemap::SourceMap);

/// The directory that the sources of a map are relative to.
pub uninterp spec fn map_root(map: SourceMap) -> Seq<char>;

/// The names of the sources of a map.
pub uninterp spec fn map_sources(map: SourceMap) -> Seq<Seq<char>>;

/// The contents of the sources of a map, as far as they are known.
pub uninterp spec fn map_contents(map: SourceMap) -> Seq<Seq<char>>;

/// The name that a file has in a map with the given root.
pub uninterp spec fn relative_source(root: Seq<char>, file: Seq<char>) -> Seq<char>;

/// The place of a source in a list of sources, or that behind the last one.
pub open spec fn source_place(sources: Seq<Seq<char>>, source: Seq<char>) -> int
    decreases sources.len(),
{
    if sources.len() == 0 || sources.first() == source {
        0
    } else {
        1 + source_place(sources.drop_first(), source)
    }
}

/// `parcel_sourcemap::SourceMap::add_source`: adds a file to the sources of a map, under its name
/// relative to the map's root, unless a source has that name already, and returns the place of
/// the first source with that name.
#[verifier::external_body]
pub(crate) fn add_source(map: &mut SourceMap, file: &str) -> (r: u32)
    ensures
        ({
            let source = relative_source(map_root(*old(map)), file@);
            let place = source_place(map_sources(*old(map)), source);
            &&& r == place as u32
            &&& map_sources(*final(map)) == (if place < map_sources(*old(map)).len() {
                map_sources(*old(map))
            } else {
                map_sources(*old(map)).push(source)
            })
        }),
        map_root(*final(map)) == map_root(*old(map)),
        map_contents(*final(map)) == map_contents(*old(map)),
{
    map.add_source(file)
}

/// The contents of sources, with `code` for the one at `place`. Those before it of which nothing
/// is known become empty.
pub open spec fn with_content(contents: Seq<Seq<char>>, place: int, code: Seq<char>) -> Seq<Seq<char>> {
    if place < contents.len() {
        contents.update(place, code)
    } else {
        (contents + Seq::new((place - contents.len()) as nat, |i: int| Seq::<char>::empty())).push(code)
    }
}

/// `parcel_sourcemap::SourceMap::set_source_content`: sets the content of a source. Where there
/// is no such source, nothing changes.
#[verifier::external_body]
pub(crate) fn set_source_content(map: &mut SourceMap, place: usize, code: &str)
    ensures
        map_root(*final(map)) == map_root(*old(map)),
        map_sources(*final(map)) == map_sources(*old(map)),
        map_contents(*final(map)) == (if place < map_sources(*old(map)).len() {
            with_content(map_contents(*old(map)), place as int, code@)
        } else {
            map_contents(*old(map))
        }),
{
    let _ = map.set_source_content(place, code);
}

/// The mathematical form of a source map, as far as bundling fills it.
pub struct SourceMapView {
    pub root: Seq<char>,
    pub sources: Seq<Seq<char>>,
    pub contents: Seq<Seq<char>>,
}

/// What a source map stands for.
pub open spec fn source_map_view(map: SourceMap) -> SourceMapView {
    SourceMapView { root: map_root(map), sources: map_sources(map), contents: map_contents(map) }
}

/// The source map with a file and its content.
pub open spec fn recorded(map: SourceMapView, file: Seq<char>, code: Seq<char>) -> SourceMapView {
    let source = relative_source(map.root, file);
    let place = source_place(map.sources, source);
    let sources = if place < map.sources.len() {
        map.sources
    } else {
        map.sources.push(source)
    };
    SourceMapView {
        root: map.root,
        sources,
        contents: if (place as u32) < sources.len() {
            with_content(map.contents, place as u32 as int, code)
        } else {
            map.contents
        },
    }
}

/// Adds a file and its content to a source map.
pub fn record_source(map: &mut SourceMap, file: &str, code: &str)
    ensures
        source_map_view(*final(map)) == recorded(source_map_view(*old(map)), file@, code@),
{
    let place: u32 = add_source(map, file);
    set_source_content(map, place as usize, code);
}

/// What [`source_place`] finds.
proof fn lemma_source_place(sources: Seq<Seq<char>>, source: Seq<char>)
    ensures
        0 <= source_place(sources, source) <= sources.len(),
        source_place(sources, source) < sources.len() ==> sources[source_place(sources, source)]
            == source,
    decreases sources.len(),
{
    if sources.len() > 0 && sources.first() != source {
        lemma_source_place(sources.drop_first(), source);
    }
}

/// A file that was added to a source map has its content there, under its name relative to the
/// map's root, and the other sources and their contents stay as they are, as long as the map has
/// no more sources than a `u32` can count.
pub proof fn law_recorded_source_has_content(map: SourceMapView, file: Seq<char>, code: Seq<char>)
    requires
        map.sources.len() <= u32::MAX,
    ensures
        ({
            let after = recorded(map, file, code);
            let place = source_place(after.sources, relative_source(map.root, file));
            &&& 0 <= place < after.sources.len()
            &&& place < after.contents.len()
            &&& after.sources[place] == relative_source(map.root, file)
            &&& after.contents[place] == code
            &&& map.sources.is_prefix_of(after.sources)
            &&& forall|k: int|
                0 <= k < map.contents.len() && k != place ==> #[trigger] after.contents[k]
                    == map.contents[k]
        }),
{
    let source = relative_source(map.root, file);
    lemma_source_place(map.sources, source);
    lemma_place_after_push(map.sources, source);
}

/// A source that was missing is found where it is added.
proof fn lemma_place_after_push(sources: Seq<Seq<char>>, source: Seq<char>)
    ensures
        source_place(sources, source) == sources.len() ==> source_place(sources.push(source), source)
            == sources.len(),
    decreases sources.len(),
{
    lemma_source_place(sources, source);
    if sources.len() > 0 {
        lemma_place_after_push(sources.drop_first(), source);
        assert(sources.push(source).drop_first() =~= sources.drop_first().push(source));
    }
}

} // verus!
