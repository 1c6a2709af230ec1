//! The font database: an ordered table of faces, each keyed by its position, and the CSS
//! `font-family` lookup over it.
use vstd::prelude::*;

use crate::fonts::error::FontError;
use crate::strutil::same_str;

verus! {

/// The family name of the bundled Ahem test font.
pub const AHEM_FAMILY: &'static str = "Ahem";

/// The family name of the bundled Noto Sans font, which also serves `sans-serif` and
/// `monospace`.
pub const NOTO_SANS_FAMILY: &'static str = "Noto Sans";

/// Opaque handle to one face in a [`FontDb`]: its position in the database.
#[derive(Debug, Clone, Copy, PartialEq, Eq, Structural, Hash)]
pub struct FontKey(pub u32);

/// One font face: its key, family name, font file bytes and index within those bytes.
#[derive(Debug, Clone)]
pub struct FontFace {
    /// This face's key in the database it came from.
    pub key: FontKey,
    /// The face's family name, e.g. `"Ahem"`.
    pub family: String,
    /// The raw bytes of the font file containing this face.
    pub data: Vec<u8>,
    /// This face's index within `data` (0 for a plain TTF/OTF).
    pub index: u32,
}

/// What registering one font asset reported: for each family it registered, the family's
/// name and the face indices within the asset.
pub type Registration = Vec<(String, Vec<u32>)>;

/// The font database: the faces registered so far, in order.
pub struct FontDb {
    faces: Vec<FontFace>,
}

/// Every face's key is its position (a position past `u32::MAX` saturates).
pub open spec fn keys_are_positions(faces: Seq<FontFace>) -> bool {
    forall|i: int|
        0 <= i < faces.len() ==> (#[trigger] faces[i]).key.0 == (if i <= u32::MAX {
            i
        } else {
            u32::MAX as int
        })
}

/// The first position at or after `j` of a face in `family`.
pub open spec fn first_in_family(faces: Seq<FontFace>, family: Seq<char>, j: int) -> Option<int>
    decreases faces.len() - j,
{
    if !(0 <= j < faces.len()) {
        None
    } else if faces[j].family@ == family {
        Some(j)
    } else {
        first_in_family(faces, family, j + 1)
    }
}

/// The key of the first face in `family`.
pub open spec fn family_key(faces: Seq<FontFace>, family: Seq<char>) -> Option<FontKey> {
    match first_in_family(faces, family, 0) {
        Some(i) => Some(faces[i].key),
        None => None,
    }
}

/// The CSS `font-family` lookup: the family's own name first; failing that, the generic
/// `sans-serif` and `monospace` both resolve to Noto Sans; anything else to nothing.
pub open spec fn key_for_spec(faces: Seq<FontFace>, family: Seq<char>) -> Option<FontKey> {
    if family_key(faces, family) is Some {
        family_key(faces, family)
    } else if family == "sans-serif"@ || family == "monospace"@ {
        family_key(faces, NOTO_SANS_FAMILY@)
    } else {
        None
    }
}

/// The faces that registering one asset adds after `count` existing faces: one per face
/// index, in order, keyed by position (a position past `u32::MAX` saturates).
pub open spec fn added_faces(count: int, family: Seq<char>, indices: Seq<u32>) -> Seq<(u32, Seq<char>, u32)> {
    Seq::new(
        indices.len(),
        |i: int|
            (if count + i <= u32::MAX {
                (count + i) as u32
            } else {
                u32::MAX
            }, family, indices[i]),
    )
}

/// What registering an asset expected to be `expected` decides from what it `reported`
/// (family names and face counts): no family is an error, more than one is an error, a
/// family other than `expected` is an error.
pub open spec fn registration_error(expected: Seq<char>, reported: Seq<Seq<char>>) -> Option<int> {
    if reported.len() == 0 {
        Some(0)
    } else if reported.len() != 1 {
        Some(1)
    } else if reported[0] != expected {
        Some(2)
    } else {
        None
    }
}

/// The key, family and index of each face, in order.
pub open spec fn face_rows(faces: Seq<FontFace>) -> Seq<(u32, Seq<char>, u32)> {
    faces.map_values(|f: FontFace| (f.key.0, f.family@, f.index))
}

/// The family names of what a registration reported.
pub open spec fn reported_families(reg: Seq<(String, Vec<u32>)>) -> Seq<Seq<char>> {
    reg.map_values(|r: (String, Vec<u32>)| r.0@)
}

impl FontDb {
    /// The faces, in order.
    pub closed spec fn spec_faces(&self) -> Seq<FontFace> {
        self.faces@
    }

    /// The database's invariant: every face's key is its position.
    pub closed spec fn wf(&self) -> bool {
        keys_are_positions(self.faces@)
    }

    /// An empty database.
    pub fn new() -> (db: FontDb)
        ensures
            db.wf(),
            db.spec_faces().len() == 0,
    {
        FontDb { faces: Vec::new() }
    }

    /// The family names present, in registration order (one per face).
    pub fn families(&self) -> (r: Vec<String>)
        ensures
            r@.len() == self.spec_faces().len(),
            forall|i: int| 0 <= i < r@.len() ==> r@[i]@ == self.spec_faces()[i].family@,
    {
        let mut r: Vec<String> = Vec::new();
        let mut i: usize = 0;
        while i < self.faces.len()
            invariant
                i <= self.faces@.len(),
                r@.len() == i,
                forall|k: int| 0 <= k < i ==> r@[k]@ == self.faces@[k].family@,
            decreases self.faces.len() - i,
        {
            r.push(self.faces[i].family.clone());
            i += 1;
        }
        r
    }

    /// The face `key` names, or `None` if it names no face of this database.
    pub fn face(&self, key: FontKey) -> (r: Option<&FontFace>)
        ensures
            r == (if (key.0 as int) < self.spec_faces().len() {
                Some(&self.spec_faces()[key.0 as int])
            } else {
                None
            }),
    {
        let i = key.0 as usize;
        if i < self.faces.len() {
            Some(&self.faces[i])
        } else {
            None
        }
    }

    /// The key of the first face in `family`.
    fn find_family(&self, family: &str) -> (r: Option<FontKey>)
        ensures
            r == family_key(self.spec_faces(), family@),
    {
        let mut i: usize = 0;
        while i < self.faces.len()
            invariant
                i <= self.faces@.len(),
                first_in_family(self.faces@, family@, i as int) == first_in_family(
                    self.faces@,
                    family@,
                    0,
                ),
            decreases self.faces.len() - i,
        {
            if same_str(self.faces[i].family.as_str(), family) {
                return Some(self.faces[i].key);
            }
            i += 1;
        }
        None
    }

    /// Resolves a CSS `font-family` value to a face: the family's exact name first, then
    /// `sans-serif` and `monospace` to Noto Sans; any other name to nothing.
    pub fn key_for(&self, family: &str) -> (r: Option<FontKey>)
        ensures
            r == key_for_spec(self.spec_faces(), family@),
    {
        if let Some(key) = self.find_family(family) {
            return Some(key);
        }
        if same_str(family, "sans-serif") || same_str(family, "monospace") {
            self.find_family(NOTO_SANS_FAMILY)
        } else {
            None
        }
    }

    /// Records one asset's registration: checks that it registered exactly one family,
    /// named `expected_family`, and appends a face for every face index it reported.
    /// On an error nothing is appended.
    pub fn register(
        &mut self,
        data: &Vec<u8>,
        expected_family: &str,
        registered: &Registration,
    ) -> (r: Result<(), FontError>)
        requires
            old(self).wf(),
        ensures
            final(self).wf(),
            registration_error(expected_family@, reported_families(registered@)) matches Some(k)
                ==> (r is Err && final(self).spec_faces() == old(self).spec_faces() && match r {
                Err(FontError::NoFacesRegistered { name }) => k == 0 && name@ == expected_family@,
                Err(FontError::UnexpectedFamilyCount { name, count }) => k == 1 && name@
                    == expected_family@ && count == registered@.len(),
                Err(FontError::UnexpectedFamilyName { expected, actual }) => k == 2
                    && expected@ == expected_family@ && actual@ == registered@[0].0@,
                Ok(_) => false,
            }),
            registration_error(expected_family@, reported_families(registered@)) is None ==> (r
                is Ok && face_rows(final(self).spec_faces()) == face_rows(old(self).spec_faces())
                + added_faces(
                old(self).spec_faces().len() as int,
                expected_family@,
                registered@[0].1@,
            ) && (forall|i: int|
                old(self).spec_faces().len() <= i < final(self).spec_faces().len()
                    ==> #[trigger] final(self).spec_faces()[i].data@ == data@) && forall|i: int|
                0 <= i < old(self).spec_faces().len() ==> #[trigger] final(self).spec_faces()[i]
                    == old(self).spec_faces()[i]),
    {
        if registered.len() == 0 {
            return Err(FontError::NoFacesRegistered { name: expected_family.to_owned() });
        }
        if registered.len() != 1 {
            return Err(
                FontError::UnexpectedFamilyCount {
                    name: expected_family.to_owned(),
                    count: registered.len(),
                },
            );
        }
        let (actual_name, indices) = &registered[0];
        if !same_str(actual_name.as_str(), expected_family) {
            return Err(
                FontError::UnexpectedFamilyName {
                    expected: expected_family.to_owned(),
                    actual: actual_name.clone(),
                },
            );
        }
        let ghost old_faces = self.faces@;
        let mut j: usize = 0;
        while j < indices.len()
            invariant
                j <= indices@.len(),
                self.faces@.len() == old_faces.len() + j,
                keys_are_positions(self.faces@),
                self.faces@.subrange(0, old_faces.len() as int) == old_faces,
                face_rows(self.faces@) == face_rows(old_faces) + added_faces(
                    old_faces.len() as int,
                    expected_family@,
                    indices@,
                ).subrange(0, j as int),
                forall|i: int|
                    old_faces.len() <= i < self.faces@.len() ==> #[trigger] self.faces@[i].data@
                        == data@,
            decreases indices.len() - j,
        {
            let count = self.faces.len();
            let key = if count <= u32::MAX as usize {
                FontKey(count as u32)
            } else {
                FontKey(u32::MAX)
            };
            let ghost before = self.faces@;
            self.faces.push(
                FontFace {
                    key,
                    family: expected_family.to_owned(),
                    data: vstd::slice::slice_to_vec(data.as_slice()),
                    index: indices[j],
                },
            );
            proof {
                assert(face_rows(self.faces@) =~= face_rows(before).push(
                    (key.0, expected_family@, indices@[j as int]),
                ));
                assert(added_faces(old_faces.len() as int, expected_family@, indices@).subrange(
                    0,
                    j + 1,
                ) =~= added_faces(old_faces.len() as int, expected_family@, indices@).subrange(
                    0,
                    j as int,
                ).push((key.0, expected_family@, indices@[j as int])));
                assert(self.faces@.subrange(0, old_faces.len() as int) =~= old_faces);
                assert(face_rows(self.faces@) =~= face_rows(old_faces) + added_faces(
                    old_faces.len() as int,
                    expected_family@,
                    indices@,
                ).subrange(0, j + 1));
            }
            j += 1;
        }
        proof {
            assert(added_faces(old_faces.len() as int, expected_family@, indices@).subrange(
                0,
                j as int,
            ) =~= added_faces(old_faces.len() as int, expected_family@, indices@));
        }
        Ok(())
    }
}

proof fn lemma_first_in_family(faces: Seq<FontFace>, family: Seq<char>, j: int)
    ensures
        first_in_family(faces, family, j) matches Some(i) ==> j <= i < faces.len()
            && faces[i].family@ == family,
    decreases faces.len() - j,
{
    if 0 <= j < faces.len() && faces[j].family@ != family {
        lemma_first_in_family(faces, family, j + 1);
    }
}

/// A family lookup resolves to a real face: the key `key_for` returns names a face of the
/// database, in the family asked for (or in Noto Sans, for `sans-serif` and `monospace`).
/// Stated for databases whose positions all fit a key (at most `u32::MAX + 1` faces).
pub proof fn lemma_key_for_names_a_face(db: &FontDb, family: Seq<char>)
    requires
        db.wf(),
        db.spec_faces().len() <= u32::MAX + 1,
    ensures
        key_for_spec(db.spec_faces(), family) matches Some(k) ==> (k.0 as int) < db.spec_faces().len()
            && (db.spec_faces()[k.0 as int].family@ == family || ((family == "sans-serif"@
            || family == "monospace"@) && db.spec_faces()[k.0 as int].family@ == NOTO_SANS_FAMILY@)),
{
    let faces = db.spec_faces();
    lemma_first_in_family(faces, family, 0);
    lemma_first_in_family(faces, NOTO_SANS_FAMILY@, 0);
    if let Some(i) = first_in_family(faces, family, 0) {
        assert(faces[i].key.0 == i);
    } else if let Some(i) = first_in_family(faces, NOTO_SANS_FAMILY@, 0) {
        assert(faces[i].key.0 == i);
    }
}

} // verus!
