//! Where heights of the ground come from.

use crate::config::TerrainSourceType;
use crate::text::{eq_ignoring_case, same_ignoring_case};
use vstd::prelude::*;

verus! {

/// How a terrain file is read.
#[derive(Clone, Copy, Debug, PartialEq, Eq, Structural)]
pub enum SourceKind {
    /// A pack of tiles, which can be read ahead in bulk.
    Builtin,
    /// Any other format, read place by place.
    External,
}

/// How a terrain file with the given extension is read.
pub open spec fn kind_of_extension(ext: Seq<char>) -> SourceKind {
    if same_ignoring_case(ext, "arpack"@) || same_ignoring_case(ext, "zstd"@) {
        SourceKind::Builtin
    } else {
        SourceKind::External
    }
}

pub fn source_kind(ext: &str) -> (r: SourceKind)
    ensures
        r == kind_of_extension(ext@),
{
    if eq_ignoring_case(ext, "arpack") || eq_ignoring_case(ext, "zstd") {
        SourceKind::Builtin
    } else {
        SourceKind::External
    }
}

/// The terrain to open.
#[derive(Debug)]
pub enum TerrainFile {
    /// None: the ground is a plane.
    Flat,
    /// A file that was named.
    Named(String),
    /// The pack that is looked for where no file is named.
    Usual,
}

/// The terrain to open: none for a flat source, else the file named on the
/// command line, else the one named in the request, else the usual pack.
pub fn choose_terrain(
    source: TerrainSourceType,
    given: &Option<String>,
    requested: &Option<String>,
) -> (r: TerrainFile)
    ensures
        source == TerrainSourceType::Flat ==> r is Flat,
        source != TerrainSourceType::Flat && given is Some ==> r is Named && r->Named_0@
            == given->0@,
        source != TerrainSourceType::Flat && given is None && requested is Some ==> r is Named
            && r->Named_0@ == requested->0@,
        source != TerrainSourceType::Flat && given is None && requested is None ==> r is Usual,
{
    match source {
        TerrainSourceType::Flat => {
            return TerrainFile::Flat;
        },
        _ => {},
    }
    match given {
        Some(p) => TerrainFile::Named(p.clone()),
        None => match requested {
            Some(p) => TerrainFile::Named(p.clone()),
            None => TerrainFile::Usual,
        },
    }
}

/// The coast mask to put over the terrain.
#[derive(Debug)]
pub enum MaskFile {
    /// None.
    Bare,
    /// A file that was named, and has to exist.
    Named(String),
    /// The mask that is looked for; if it is not there, none.
    Usual,
}

/// The mask to put over the terrain: the one named on the command line, else the
/// one named in the request. A mask is looked for only over terrain that was not
/// chosen explicitly.
pub fn choose_mask(given: &Option<String>, requested: &Option<String>, terrain: &TerrainFile) -> (r:
    MaskFile)
    ensures
        given is Some ==> r is Named && r->Named_0@ == given->0@,
        given is None && requested is Some ==> r is Named && r->Named_0@ == requested->0@,
        given is None && requested is None && terrain is Usual ==> r is Usual,
        given is None && requested is None && !(terrain is Usual) ==> r is Bare,
{
    match given {
        Some(p) => MaskFile::Named(p.clone()),
        None => match requested {
            Some(p) => MaskFile::Named(p.clone()),
            None => match terrain {
                TerrainFile::Usual => MaskFile::Usual,
                _ => MaskFile::Bare,
            },
        },
    }
}

/// Terrain that was opened: packs of tiles and other files, with or without a
/// coast mask.
pub enum TerrainHandle<B, D> {
    Flat,
    Plain(B),
    External(D),
    Masked(B),
    MaskedExternal(D),
}

/// Terrain that can be asked for heights.
pub enum SourceRef<'a, B, D> {
    Bulk(&'a B),
    Single(&'a D),
}

impl<B, D> TerrainHandle<B, D> {
    /// What can be asked for heights, if there is terrain.
    pub fn as_source(&self) -> (r: Option<SourceRef<'_, B, D>>)
        ensures
            r == (match *self {
                TerrainHandle::Flat => None,
                TerrainHandle::Plain(t) => Some(SourceRef::Bulk(&t)),
                TerrainHandle::Masked(t) => Some(SourceRef::Bulk(&t)),
                TerrainHandle::External(t) => Some(SourceRef::Single(&t)),
                TerrainHandle::MaskedExternal(t) => Some(SourceRef::Single(&t)),
            }),
    {
        match self {
            TerrainHandle::Flat => None,
            TerrainHandle::Plain(t) => Some(SourceRef::Bulk(t)),
            TerrainHandle::Masked(t) => Some(SourceRef::Bulk(t)),
            TerrainHandle::External(t) => Some(SourceRef::Single(t)),
            TerrainHandle::MaskedExternal(t) => Some(SourceRef::Single(t)),
        }
    }

    /// What can be read ahead in bulk: packs of tiles only.
    pub fn as_bulk(&self) -> (r: Option<&B>)
        ensures
            r == (match *self {
                TerrainHandle::Plain(t) => Some(&t),
                TerrainHandle::Masked(t) => Some(&t),
                _ => None,
            }),
    {
        match self {
            TerrainHandle::Plain(t) => Some(t),
            TerrainHandle::Masked(t) => Some(t),
            _ => None,
        }
    }
}

} // verus!
