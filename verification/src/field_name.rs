use vstd::prelude::*;

verus! {

/// Ghost mirror of [`FieldName`], with names as character sequences and
/// indices widened to `int`.
pub enum PathComp {
    Literal(Seq<char>),
    Array(int),
    Tuple(int),
    StructVariant(Seq<char>),
}

/// One addressing step inside a [`crate::value::Value`] tree: a record
/// field by name, a 0-based sequence index, a 0-based positional index, or
/// a named field inside an enum's named payload.
#[derive(Debug, Clone, PartialEq, Eq, Hash)]
pub enum FieldName {
    Literal(String),
    Array(usize),
    Tuple(u8),
    StructVariant(String),
}

impl View for FieldName {
    type V = PathComp;

    open spec fn view(&self) -> PathComp {
        match self {
            FieldName::Literal(s) => PathComp::Literal(s@),
            FieldName::Array(n) => PathComp::Array(*n as int),
            FieldName::Tuple(n) => PathComp::Tuple(*n as int),
            FieldName::StructVariant(s) => PathComp::StructVariant(s@),
        }
    }
}

/// The components named by a sequence of [`FieldName`]s.
pub open spec fn comps_of(names: Seq<FieldName>) -> Seq<PathComp> {
    names.map_values(|f: FieldName| f@)
}

impl FieldName {
    /// The name carried by a `Literal` or `StructVariant` component; the
    /// empty string for the numeric components.
    pub fn as_str(&self) -> (r: &str)
        ensures
            r@ == match self@ {
                PathComp::Literal(s) => s,
                PathComp::StructVariant(s) => s,
                _ => Seq::<char>::empty(),
            },
    {
        proof {
            reveal_strlit("");
        }
        match self {
            FieldName::Literal(s) => s.as_str(),
            FieldName::StructVariant(s) => s.as_str(),
            _ => "",
        }
    }
}

/// The character for one decimal digit.
pub open spec fn digit_char(d: int) -> char {
    if d == 0 {
        '0'
    } else if d == 1 {
        '1'
    } else if d == 2 {
        '2'
    } else if d == 3 {
        '3'
    } else if d == 4 {
        '4'
    } else if d == 5 {
        '5'
    } else if d == 6 {
        '6'
    } else if d == 7 {
        '7'
    } else if d == 8 {
        '8'
    } else {
        '9'
    }
}

/// The decimal rendering of a nonnegative integer, most significant digit
/// first, without leading zeros (`0` renders as "0").
pub open spec fn dec_uint(n: int) -> Seq<char>
    decreases n,
{
    if n < 10 {
        seq![digit_char(n)]
    } else {
        dec_uint(n / 10).push(digit_char(n % 10))
    }
}

/// How one component renders inside a path string: named and positional
/// components are preceded by a dot unless nothing has been rendered yet;
/// bracketed components never take a dot.
pub open spec fn render_comp(c: PathComp, first: bool) -> Seq<char> {
    match c {
        PathComp::Literal(s) => if first {
            s
        } else {
            seq!['.'] + s
        },
        PathComp::Tuple(n) => if first {
            dec_uint(n)
        } else {
            seq!['.'] + dec_uint(n)
        },
        PathComp::Array(n) => seq!['['] + dec_uint(n) + seq![']'],
        PathComp::StructVariant(s) => seq!['['] + s + seq![']'],
    }
}

/// The canonical string form of a component sequence; `first` says whether
/// nothing has been rendered yet.
pub open spec fn spec_render(comps: Seq<PathComp>, first: bool) -> Seq<char>
    decreases comps.len(),
{
    if comps.len() == 0 {
        Seq::empty()
    } else {
        render_comp(comps[0], first) + spec_render(
            comps.drop_first(),
            first && render_comp(comps[0], first).len() == 0,
        )
    }
}

/// One decimal digit as a string slice.
pub fn digit_str(d: u8) -> (r: &'static str)
    requires
        d < 10,
    ensures
        r@ == seq![digit_char(d as int)],
{
    proof {
        reveal_strlit("0");
        reveal_strlit("1");
        reveal_strlit("2");
        reveal_strlit("3");
        reveal_strlit("4");
        reveal_strlit("5");
        reveal_strlit("6");
        reveal_strlit("7");
        reveal_strlit("8");
        reveal_strlit("9");
    }
    let r = match d {
        0 => "0",
        1 => "1",
        2 => "2",
        3 => "3",
        4 => "4",
        5 => "5",
        6 => "6",
        7 => "7",
        8 => "8",
        _ => "9",
    };
    proof {
        assert(r@ =~= seq![digit_char(d as int)]);
    }
    r
}

/// Renders a nonnegative number in decimal.
pub fn uint_to_string(n: u64) -> (r: String)
    ensures
        r@ == dec_uint(n as int),
    decreases n,
{
    if n < 10 {
        let mut s = String::new();
        s.append(digit_str(n as u8));
        proof {
            assert(s@ =~= dec_uint(n as int));
        }
        s
    } else {
        let mut s = uint_to_string(n / 10);
        s.append(digit_str((n % 10) as u8));
        proof {
            assert(s@ =~= dec_uint(n as int));
        }
        s
    }
}

/// An ordered field path, kept in its canonical string form; the raw key
/// under which a rule chain or a message override is registered.
#[derive(Debug, Clone, PartialEq, Eq, Hash, Default)]
pub struct FieldNames {
    pub string: String,
}

impl View for FieldNames {
    type V = Seq<char>;

    open spec fn view(&self) -> Seq<char> {
        self.string@
    }
}

impl FieldNames {
    /// Wraps an already-rendered path string.
    pub fn new(string: String) -> (r: Self)
        ensures
            r@ == string@,
    {
        Self { string }
    }

    /// The canonical string form.
    pub fn string(&self) -> (r: &String)
        ensures
            r@ == self@,
    {
        &self.string
    }
}

/// Renders a component sequence to its canonical string form.
pub fn names_to_string(vec: &Vec<FieldName>) -> (r: String)
    ensures
        r@ == spec_render(comps_of(vec@), true),
{
    let mut s = String::new();
    let mut i: usize = 0;
    proof {
        assert(comps_of(vec@).skip(0) =~= comps_of(vec@));
        assert(s@ + spec_render(comps_of(vec@), true) =~= spec_render(comps_of(vec@), true));
    }
    while i < vec.len()
        invariant
            i <= vec@.len(),
            comps_of(vec@).len() == vec@.len(),
            forall|j: int| 0 <= j < vec@.len() ==> comps_of(vec@)[j] == (#[trigger] vec@[j])@,
            s@ + spec_render(comps_of(vec@).skip(i as int), s@.len() == 0) == spec_render(
                comps_of(vec@),
                true,
            ),
        decreases vec@.len() - i,
    {
        let ghost rest = comps_of(vec@).skip(i as int);
        let ghost first = s@.len() == 0;
        let ghost s0 = s@;
        let empty = s.as_str().is_empty();
        match &vec[i] {
            FieldName::Literal(name) => {
                if !empty {
                    s.append(".");
                }
                s.append(name.as_str());
                proof {
                    reveal_strlit(".");
                }
            },
            FieldName::Tuple(n) => {
                if !empty {
                    s.append(".");
                }
                let d = uint_to_string(*n as u64);
                s.append(d.as_str());
                proof {
                    reveal_strlit(".");
                }
            },
            FieldName::Array(n) => {
                s.append("[");
                let d = uint_to_string(*n as u64);
                s.append(d.as_str());
                s.append("]");
                proof {
                    reveal_strlit("[");
                    reveal_strlit("]");
                }
            },
            FieldName::StructVariant(name) => {
                s.append("[");
                s.append(name.as_str());
                s.append("]");
                proof {
                    reveal_strlit("[");
                    reveal_strlit("]");
                }
            },
        }
        proof {
            assert(rest[0] == vec@[i as int]@);
            assert(rest.drop_first() =~= comps_of(vec@).skip(i as int + 1));
            assert(s@ =~= s0 + render_comp(rest[0], first));
            assert(s@.len() == 0 <==> (first && render_comp(rest[0], first).len() == 0));
            assert((s0 + render_comp(rest[0], first)) + spec_render(
                rest.drop_first(),
                s@.len() == 0,
            ) =~= s0 + (render_comp(rest[0], first) + spec_render(
                rest.drop_first(),
                s@.len() == 0,
            )));
        }
        i = i + 1;
    }
    proof {
        assert(comps_of(vec@).skip(vec@.len() as int) =~= Seq::<PathComp>::empty());
        assert(s@ + spec_render(Seq::<PathComp>::empty(), s@.len() == 0) =~= s@);
    }
    s
}

} // verus!

verus! {

impl From<Vec<FieldName>> for FieldNames {
    /// Renders the components to their canonical string form.
    fn from(value: Vec<FieldName>) -> (r: Self) {
        FieldNames { string: names_to_string(&value) }
    }
}

impl vstd::std_specs::convert::FromSpecImpl<Vec<FieldName>> for FieldNames {
    open spec fn obeys_from_spec() -> bool {
        false
    }

    open spec fn from_spec(t: Vec<FieldName>) -> Self {
        vstd::pervasive::arbitrary()
    }
}

impl From<FieldName> for FieldNames {
    /// Renders one component to its canonical string form.
    fn from(value: FieldName) -> (r: Self) {
        let mut vec: Vec<FieldName> = Vec::new();
        vec.push(value);
        FieldNames { string: names_to_string(&vec) }
    }
}

impl vstd::std_specs::convert::FromSpecImpl<FieldName> for FieldNames {
    open spec fn obeys_from_spec() -> bool {
        false
    }

    open spec fn from_spec(t: FieldName) -> Self {
        vstd::pervasive::arbitrary()
    }
}

} // verus!
