use vstd::prelude::*;
use crate::text::{
    append_i64_text, i64_of, int_text, is_token, join_ws, lemma_int_text_round_trip,
    law_split_join, lemma_nat_text, nat_text, parse_i64, split_whitespace, split_ws,
};

verus! {

broadcast use vstd::std_specs::vec::group_vec_axioms, vstd::seq::group_seq_axioms;

/// Why a numeric text field could not be read.
#[derive(PartialEq, Eq, Structural, Debug, Clone, Copy)]
pub enum CodecError {
    /// A token is not a number of the field's kind.
    NumericFormat,
    /// The field holds `found` tokens where it takes `expected`.
    ArityMismatch { expected: usize, found: usize },
    /// A pose holds `found` tokens where it takes six or seven.
    PoseArity { found: usize },
}

pub open spec fn strings_view(v: Seq<String>) -> Seq<Seq<char>> {
    v.map_values(|t: String| t@)
}

/// The `n` integers that the text `s` lists, separated by white space.
/// A token that is no `i64` is reported first, then a count other than `n`.
pub open spec fn int_fields(s: Seq<char>, n: nat) -> Result<Seq<i64>, CodecError> {
    let ts = split_ws(s);
    if exists|i: int| 0 <= i < ts.len() && #[trigger] i64_of(ts[i]) is None {
        Err(CodecError::NumericFormat)
    } else if ts.len() != n {
        Err(CodecError::ArityMismatch { expected: n as usize, found: ts.len() as usize })
    } else {
        Ok(ts.map_values(|t: Seq<char>| i64_of(t)->0))
    }
}

/// The integers of `v` in decimal, separated by single spaces.
pub open spec fn ints_text(v: Seq<i64>) -> Seq<char> {
    join_ws(v.map_values(|x: i64| int_text(x as int)))
}

/// Reads `n` integers separated by white space.
pub fn parse_int_fields(s: &str, n: usize) -> (r: Result<Vec<i64>, CodecError>)
    ensures
        match r {
            Ok(v) => int_fields(s@, n as nat) == Ok::<Seq<i64>, CodecError>(v@),
            Err(e) => int_fields(s@, n as nat) == Err::<Seq<i64>, CodecError>(e),
        },
{
    let ts = split_whitespace(s);
    let ghost tv = strings_view(ts@);
    let mut out: Vec<i64> = Vec::new();
    let mut i: usize = 0;
    while i < ts.len()
        invariant
            i <= ts@.len(),
            tv == strings_view(ts@),
            tv == split_ws(s@),
            out@ == tv.take(i as int).map_values(|t: Seq<char>| i64_of(t)->0),
            forall|j: int| 0 <= j < i ==> #[trigger] i64_of(tv[j]) is Some,
        decreases ts@.len() - i,
    {
        match parse_i64(ts[i].as_str()) {
            Some(x) => {
                out.push(x);
                proof {
                    assert(tv.take(i + 1) =~= tv.take(i as int).push(tv[i as int]));
                    assert(out@ =~= tv.take(i + 1).map_values(|t: Seq<char>| i64_of(t)->0));
                }
            },
            None => {
                proof {
                    assert(i64_of(tv[i as int]) is None);
                }
                return Err(CodecError::NumericFormat);
            },
        }
        i = i + 1;
    }
    proof {
        assert(tv.take(i as int) =~= tv);
    }
    if ts.len() != n {
        return Err(CodecError::ArityMismatch { expected: n, found: ts.len() });
    }
    Ok(out)
}

/// The integers of `v` in decimal, separated by single spaces.
pub fn format_int_fields(v: &Vec<i64>) -> (r: String)
    ensures
        r@ == ints_text(v@),
{
    let mut out = String::new();
    let mut i: usize = 0;
    while i < v.len()
        invariant
            i <= v@.len(),
            out@ == ints_text(v@.take(i as int)),
        decreases v@.len() - i,
    {
        let ghost ts = v@.take(i as int).map_values(|x: i64| int_text(x as int));
        let ghost next = v@.take(i + 1).map_values(|x: i64| int_text(x as int));
        proof {
            assert(next.drop_last() =~= ts);
            assert(next.last() == int_text(v@[i as int] as int));
        }
        if i > 0 {
            proof {
                reveal_strlit(" ");
            }
            out.append(" ");
        }
        append_i64_text(v[i], &mut out);
        proof {
            if i == 0 {
                assert(ts.len() == 0);
                assert(out@ =~= next[0]);
            } else {
                assert(out@ =~= join_ws(ts) + seq![' '] + next.last());
            }
        }
        i = i + 1;
    }
    proof {
        assert(v@.take(i as int) =~= v@);
    }
    out
}

proof fn lemma_int_text_token(x: i64)
    ensures
        is_token(int_text(x as int)),
        i64_of(int_text(x as int)) == Some(x),
{
    lemma_int_text_round_trip(x);
    let t = int_text(x as int);
    if x < 0 {
        lemma_nat_text((-x) as nat);
        assert(t.drop_first() =~= nat_text((-x) as nat));
        assert forall|i: int| 0 <= i < t.len() implies !crate::text::space(t[i]) by {
            if i > 0 {
                assert(t[i] == t.drop_first()[i - 1]);
            }
        }
    } else {
        lemma_nat_text(x as nat);
    }
}

/// Formatting integers and reading them back gives the same integers.
pub proof fn law_int_fields_round_trip(v: Seq<i64>)
    ensures
        int_fields(ints_text(v), v.len()) == Ok::<Seq<i64>, CodecError>(v),
{
    let ts = v.map_values(|x: i64| int_text(x as int));
    assert forall|i: int| 0 <= i < ts.len() implies is_token(#[trigger] ts[i]) by {
        lemma_int_text_token(v[i]);
    }
    law_split_join(ts);
    assert forall|i: int| 0 <= i < ts.len() implies #[trigger] i64_of(ts[i]) == Some(v[i]) by {
        lemma_int_text_token(v[i]);
    }
    assert(ts.map_values(|t: Seq<char>| i64_of(t)->0) =~= v);
}

/// A vector of three integers.
#[derive(PartialEq, Eq, Structural, Debug, Clone, Copy)]
pub struct Vector3i {
    pub x: i64,
    pub y: i64,
    pub z: i64,
}

impl Vector3i {
    pub fn new(x: i64, y: i64, z: i64) -> (r: Vector3i)
        ensures
            r == (Vector3i { x, y, z }),
    {
        Vector3i { x, y, z }
    }

    pub open spec fn components(self) -> Seq<i64> {
        seq![self.x, self.y, self.z]
    }

    /// Reads three integers separated by white space.
    pub fn parse(s: &str) -> (r: Result<Vector3i, CodecError>)
        ensures
            match r {
                Ok(v) => int_fields(s@, 3) == Ok::<Seq<i64>, CodecError>(v.components()),
                Err(e) => int_fields(s@, 3) == Err::<Seq<i64>, CodecError>(e),
            },
    {
        match parse_int_fields(s, 3) {
            Ok(v) => {
                let r = Vector3i { x: v[0], y: v[1], z: v[2] };
                proof {
                    assert(v@ =~= r.components());
                }
                Ok(r)
            },
            Err(e) => Err(e),
        }
    }

    /// The three components in decimal, separated by single spaces.
    pub fn to_text(&self) -> (r: String)
        ensures
            r@ == ints_text(self.components()),
    {
        let mut v: Vec<i64> = Vec::new();
        v.push(self.x);
        v.push(self.y);
        v.push(self.z);
        proof {
            assert(v@ =~= self.components());
        }
        format_int_fields(&v)
    }
}

/// Formatting an integer vector and reading it back gives the same vector.
pub proof fn law_vector3i_round_trip(v: Vector3i)
    ensures
        int_fields(ints_text(v.components()), 3) == Ok::<Seq<i64>, CodecError>(v.components()),
{
    law_int_fields_round_trip(v.components());
}

/// Splits `s` into its `n` white-space separated tokens.
pub fn fixed_fields(s: &str, n: usize) -> (r: Result<Vec<String>, CodecError>)
    ensures
        match r {
            Ok(ts) => split_ws(s@).len() == n && strings_view(ts@) == split_ws(s@),
            Err(e) => split_ws(s@).len() != n && e == CodecError::ArityMismatch {
                expected: n,
                found: split_ws(s@).len() as usize,
            },
        },
{
    let ts = split_whitespace(s);
    if ts.len() != n {
        return Err(CodecError::ArityMismatch { expected: n, found: ts.len() });
    }
    Ok(ts)
}

/// The pose of a frame as written: a numeric text, the frame it is relative
/// to, and whether its Euler angles are in degrees.
pub struct SdfPose {
    pub data: String,
    pub relative_to: Option<String>,
    pub degrees: Option<bool>,
}

/// The rotation part of a pose, as the tokens that give it.
pub enum RotationText {
    /// Roll, pitch and yaw; `degrees` tells whether they are in degrees
    /// rather than radians.
    Euler { roll: String, pitch: String, yaw: String, degrees: bool },
    /// A quaternion written as `i j k w`.
    Quaternion { i: String, j: String, k: String, w: String },
}

/// A pose split into its parts, each number still as its token.
pub struct PoseText {
    /// The `x y z` tokens of the translation.
    pub translation: Vec<String>,
    pub rotation: RotationText,
    /// The frame the pose is relative to; empty where none is given.
    pub relative_to: String,
}

pub open spec fn text_or_empty(o: Option<String>) -> Seq<char> {
    match o {
        Some(t) => t@,
        None => Seq::empty(),
    }
}

/// What `text` holds when it has the tokens `ts` of a pose.
pub open spec fn pose_text_matches(p: PoseText, ts: Seq<Seq<char>>, degrees: Option<bool>) -> bool {
    &&& strings_view(p.translation@) == ts.take(3)
    &&& match p.rotation {
        RotationText::Euler { roll, pitch, yaw, degrees: d } => {
            &&& ts.len() == 6
            &&& roll@ == ts[3] && pitch@ == ts[4] && yaw@ == ts[5]
            &&& d == (degrees == Some(true))
        },
        RotationText::Quaternion { i, j, k, w } => {
            &&& ts.len() == 7
            &&& i@ == ts[3] && j@ == ts[4] && k@ == ts[5] && w@ == ts[6]
        },
    }
}

impl SdfPose {
    /// Splits the pose text: six tokens are a translation and Euler angles,
    /// seven a translation and a quaternion; any other count is an error.
    /// Angles count as degrees only where `degrees` is present and true.
    pub fn pose_text(&self) -> (r: Result<PoseText, CodecError>)
        ensures
            ({
                let ts = split_ws(self.data@);
                match r {
                    Ok(p) => (ts.len() == 6 || ts.len() == 7) && pose_text_matches(
                        p,
                        ts,
                        self.degrees,
                    ) && p.relative_to@ == text_or_empty(self.relative_to),
                    Err(e) => !(ts.len() == 6 || ts.len() == 7) && e == CodecError::PoseArity {
                        found: ts.len() as usize,
                    },
                }
            }),
    {
        let ts = split_whitespace(self.data.as_str());
        let ghost tv = strings_view(ts@);
        let n = ts.len();
        if n != 6 && n != 7 {
            return Err(CodecError::PoseArity { found: n });
        }
        let mut translation: Vec<String> = Vec::new();
        translation.push(ts[0].clone());
        translation.push(ts[1].clone());
        translation.push(ts[2].clone());
        proof {
            assert(strings_view(translation@) =~= tv.take(3));
        }
        let rotation = if n == 6 {
            let degrees = match self.degrees {
                Some(d) => d,
                None => false,
            };
            RotationText::Euler {
                roll: ts[3].clone(),
                pitch: ts[4].clone(),
                yaw: ts[5].clone(),
                degrees,
            }
        } else {
            RotationText::Quaternion {
                i: ts[3].clone(),
                j: ts[4].clone(),
                k: ts[5].clone(),
                w: ts[6].clone(),
            }
        };
        let relative_to = match &self.relative_to {
            Some(t) => t.clone(),
            None => String::new(),
        };
        Ok(PoseText { translation, rotation, relative_to })
    }
}

} // verus!
