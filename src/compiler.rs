use vstd::prelude::*;
use convert_case::{Case, Casing};
use crate::schema::{
    lemma_schemas_view, schemas_view, AttributeView, Cardinality, IncludeView, SchemaAttribute,
    SchemaElement, SchemaInclude, SchemaView,
};

verus! {

broadcast use vstd::std_specs::vec::group_vec_axioms, vstd::seq::group_seq_axioms;

/// What convert_case makes of a text in PascalCase.
pub uninterp spec fn pascal_case(s: Seq<char>) -> Seq<char>;

/// What convert_case makes of a text in snake_case.
pub uninterp spec fn snake_case(s: Seq<char>) -> Seq<char>;

/// Relies on convert_case's `Casing::to_case` with `Case::Pascal`, whose
/// result depends on the text alone.
#[verifier::external_body]
fn to_pascal(s: &str) -> (r: String)
    ensures
        r@ == pascal_case(s@),
{
    s.to_case(Case::Pascal)
}

/// Relies on convert_case's `Casing::to_case` with `Case::Snake`, whose
/// result depends on the text alone.
#[verifier::external_body]
fn to_snake(s: &str) -> (r: String)
    ensures
        r@ == snake_case(s@),
{
    s.to_case(Case::Snake)
}

/// How a scalar field is stored.
#[derive(PartialEq, Eq, Structural, Debug, Clone, Copy)]
pub enum StorageType {
    Float,
    Bool,
    Vector3d,
    Text,
}

/// The storage of a declared scalar type; every type not known here is text.
pub open spec fn storage_of(t: Seq<char>) -> StorageType {
    if t == "double"@ {
        StorageType::Float
    } else if t == "bool"@ {
        StorageType::Bool
    } else if t == "vector3"@ {
        StorageType::Vector3d
    } else {
        StorageType::Text
    }
}

/// Maps a declared scalar type to its storage.
pub fn storage_type(t: &str) -> (r: StorageType)
    ensures
        r == storage_of(t@),
{
    let s = t.to_owned();
    if s == "double".to_owned() {
        StorageType::Float
    } else if s == "bool".to_owned() {
        StorageType::Bool
    } else if s == "vector3".to_owned() {
        StorageType::Vector3d
    } else {
        StorageType::Text
    }
}

/// The container around a field's base type.
#[derive(PartialEq, Eq, Structural, Debug, Clone, Copy)]
pub enum Wrapper {
    /// May be absent.
    Nullable,
    /// Exactly one value.
    Bare,
    /// An ordered sequence of values.
    Sequence,
    /// An ordered sequence of values held behind an indirection.
    BoxedSequence,
}

pub open spec fn wrapper_of(c: Cardinality) -> Wrapper {
    match c {
        Cardinality::Optional => Wrapper::Nullable,
        Cardinality::ExactlyOne => Wrapper::Bare,
        Cardinality::Many => Wrapper::Sequence,
    }
}

impl Cardinality {
    /// The container of a field with this cardinality: optional is nullable,
    /// exactly one is bare, many is a sequence.
    pub fn wrapper(self) -> (r: Wrapper)
        ensures
            r == wrapper_of(self),
            self == Cardinality::Optional ==> r == Wrapper::Nullable,
            self == Cardinality::ExactlyOne ==> r == Wrapper::Bare,
            self == Cardinality::Many ==> r == Wrapper::Sequence,
    {
        match self {
            Cardinality::Optional => Wrapper::Nullable,
            Cardinality::ExactlyOne => Wrapper::Bare,
            Cardinality::Many => Wrapper::Sequence,
        }
    }
}

/// The type a field holds inside its wrapper.
pub enum BaseType {
    Scalar(StorageType),
    Named(String),
}

pub enum BaseView {
    Scalar(StorageType),
    Named(Seq<char>),
}

/// Where a field's value sits in the element.
#[derive(PartialEq, Eq, Structural, Debug, Clone, Copy)]
pub enum FieldKind {
    Attribute,
    Child,
    Text,
}

/// One field of a generated type.
pub struct FieldDef {
    /// The attribute or child tag the field reads; empty for the text.
    pub tag: String,
    pub field_name: String,
    pub kind: FieldKind,
    pub base: BaseType,
    pub wrapper: Wrapper,
}

pub struct FieldView {
    pub tag: Seq<char>,
    pub field_name: Seq<char>,
    pub kind: FieldKind,
    pub base: BaseView,
    pub wrapper: Wrapper,
}

/// One generated type: its name, the tag it reads, and its fields in order.
pub struct TypeDef {
    pub name: String,
    pub tag: String,
    pub source_file: String,
    pub description: String,
    pub fields: Vec<FieldDef>,
}

pub struct TypeDefView {
    pub name: Seq<char>,
    pub tag: Seq<char>,
    pub source_file: Seq<char>,
    pub description: Seq<char>,
    pub fields: Seq<FieldView>,
}

impl View for BaseType {
    type V = BaseView;

    open spec fn view(&self) -> BaseView {
        match self {
            BaseType::Scalar(s) => BaseView::Scalar(*s),
            BaseType::Named(n) => BaseView::Named(n@),
        }
    }
}

impl View for FieldDef {
    type V = FieldView;

    open spec fn view(&self) -> FieldView {
        FieldView {
            tag: self.tag@,
            field_name: self.field_name@,
            kind: self.kind,
            base: self.base@,
            wrapper: self.wrapper,
        }
    }
}

impl View for TypeDef {
    type V = TypeDefView;

    open spec fn view(&self) -> TypeDefView {
        TypeDefView {
            name: self.name@,
            tag: self.tag@,
            source_file: self.source_file@,
            description: self.description@,
            fields: self.fields@.map_values(|f: FieldDef| f@),
        }
    }
}

pub open spec fn typedefs_view(ts: Seq<TypeDef>) -> Seq<TypeDefView> {
    ts.map_values(|t: TypeDef| t@)
}

/// Why a set of schema files cannot be compiled.
#[derive(Debug)]
pub enum SchemaError {
    /// An include names a file that the set does not hold.
    UnresolvedInclude(String),
    /// An include declaration without a target file.
    MissingIncludeTarget,
}

/// Names that cannot stand as field names as they are.
pub open spec fn reserved(s: Seq<char>) -> bool {
    s == "loop"@ || s == "static"@ || s == "type"@ || s == "box"@
}

/// A name made fit for a field: reserved words escaped with `r#`, and each
/// `:` replaced by `_`. A field's name is its tag, snake-cased, made fit.
pub open spec fn sanitized(s: Seq<char>) -> Seq<char> {
    let t = if reserved(s) {
        "r#"@ + s
    } else {
        s
    };
    t.map_values(|c: char| if c == ':' { '_' } else { c })
}

/// Makes a name fit for a field.
pub fn sanitize_field(s: &str) -> (r: String)
    ensures
        r@ == sanitized(s@),
{
    let n = s.to_owned();
    let mut t = String::new();
    if n == "loop".to_owned() || n == "static".to_owned() || n == "type".to_owned() || n
        == "box".to_owned() {
        t.append("r#");
    }
    t.append(s);
    let ghost tv = if reserved(s@) {
        "r#"@ + s@
    } else {
        s@
    };
    proof {
        if reserved(s@) {
            assert(t@ =~= tv);
        } else {
            assert(t@ =~= tv);
        }
    }
    let len = t.as_str().unicode_len();
    let mut out = String::new();
    let mut i: usize = 0;
    while i < len
        invariant
            i <= len,
            len == t@.len(),
            t@ == tv,
            out@ == tv.take(i as int).map_values(|c: char| if c == ':' { '_' } else { c }),
        decreases len - i,
    {
        let c = t.as_str().get_char(i);
        if c == ':' {
            out.append("_");
            proof {
                reveal_strlit("_");
            }
        } else {
            out.append(t.as_str().substring_char(i, i + 1));
        }
        proof {
            assert(tv.take(i + 1) =~= tv.take(i as int).push(c));
            assert(out@ =~= tv.take(i + 1).map_values(|c: char| if c == ':' { '_' } else { c }));
        }
        i = i + 1;
    }
    proof {
        assert(tv.take(len as int) =~= tv);
    }
    out
}

pub open spec fn starts_with_sdf(p: Seq<char>) -> bool {
    p.len() >= 3 && p[0] == 'S' && p[1] == 'd' && p[2] == 'f'
}

/// A type-name prefix: `p` in PascalCase, after the format's `Sdf` prefix
/// unless `p` already begins with it.
pub open spec fn prefix_type(p: Seq<char>) -> Seq<char> {
    if starts_with_sdf(p) {
        pascal_case(p)
    } else {
        "Sdf"@ + pascal_case(p)
    }
}

fn prefix_type_of(p: &str) -> (r: String)
    ensures
        r@ == prefix_type(p@),
{
    let n = p.unicode_len();
    let starts = n >= 3 && p.get_char(0) == 'S' && p.get_char(1) == 'd' && p.get_char(2) == 'f';
    if starts {
        to_pascal(p)
    } else {
        let mut r = "Sdf".to_owned();
        r.append(to_pascal(p).as_str());
        r
    }
}

/// A schema file's name without its `.sdf` extension.
pub open spec fn base_name(f: Seq<char>) -> Seq<char> {
    if f.len() >= 4 && f[f.len() - 4] == '.' && f[f.len() - 3] == 's' && f[f.len() - 2] == 'd'
        && f[f.len() - 1] == 'f' {
        f.take(f.len() - 4)
    } else {
        f
    }
}

/// The last part of a type's name: a top-level type is named after its file,
/// any other after its tag.
pub open spec fn type_stem(e: SchemaView) -> Seq<char> {
    if e.top_level {
        pascal_case(base_name(e.source_file))
    } else {
        pascal_case(e.name)
    }
}

fn type_stem_of(e: &SchemaElement) -> (r: String)
    ensures
        r@ == type_stem(e@),
{
    if e.top_level {
        let f = e.source_file.as_str();
        let n = f.unicode_len();
        if n >= 4 && f.get_char(n - 4) == '.' && f.get_char(n - 3) == 's' && f.get_char(n - 2)
            == 'd' && f.get_char(n - 1) == 'f' {
            to_pascal(f.substring_char(0, n - 4))
        } else {
            to_pascal(f)
        }
    } else {
        to_pascal(e.name.as_str())
    }
}


pub open spec fn generated_name(e: SchemaView, prefix: Seq<char>) -> Seq<char> {
    prefix_type(prefix) + type_stem(e)
}

/// The prefix under which the types nested in `e` are named.
pub open spec fn child_prefix(e: SchemaView, prefix: Seq<char>) -> Seq<char> {
    prefix_type(pascal_case(prefix) + type_stem(e))
}

/// A composite child declared in place, which gets a type of its own.
pub open spec fn is_nested(c: SchemaView) -> bool {
    c.rtype.len() == 0 && c.reference is None
}

pub open spec fn attribute_field(a: AttributeView) -> FieldView {
    FieldView {
        tag: a.name,
        field_name: sanitized(snake_case(a.name)),
        kind: FieldKind::Attribute,
        base: BaseView::Scalar(storage_of(a.rtype)),
        wrapper: wrapper_of(a.required),
    }
}

/// The field for a child: a scalar for a leaf; for a reference, a boxed
/// sequence of the referenced type, which keeps self-containing types finite;
/// else the child's own nested type.
pub open spec fn child_field(c: SchemaView, cp: Seq<char>) -> FieldView {
    if c.rtype.len() == 0 {
        match c.reference {
            Some(r) => FieldView {
                tag: r,
                field_name: sanitized(snake_case(r)),
                kind: FieldKind::Child,
                base: BaseView::Named("Sdf"@ + pascal_case(r)),
                wrapper: Wrapper::BoxedSequence,
            },
            None => FieldView {
                tag: c.name,
                field_name: sanitized(snake_case(c.name)),
                kind: FieldKind::Child,
                base: BaseView::Named(generated_name(c, cp)),
                wrapper: wrapper_of(c.required),
            },
        }
    } else {
        FieldView {
            tag: c.name,
            field_name: sanitized(snake_case(c.name)),
            kind: FieldKind::Child,
            base: BaseView::Scalar(storage_of(c.rtype)),
            wrapper: wrapper_of(c.required),
        }
    }
}

/// The field for an include resolved to `target`: named after the target's
/// tag, with the include's own cardinality.
pub open spec fn include_field(target: SchemaView, inc: IncludeView) -> FieldView {
    FieldView {
        tag: snake_case(target.name),
        field_name: sanitized(snake_case(target.name)),
        kind: FieldKind::Child,
        base: BaseView::Named("Sdf"@ + type_stem(target)),
        wrapper: wrapper_of(inc.required),
    }
}

/// The first of `files` declared in the file `f`, or -1.
pub open spec fn file_index(files: Seq<SchemaView>, f: Seq<char>) -> int
    decreases files.len(),
{
    if files.len() == 0 {
        -1
    } else if file_index(files.drop_last(), f) >= 0 {
        file_index(files.drop_last(), f)
    } else if files.last().source_file == f {
        files.len() - 1
    } else {
        -1
    }
}

/// The fields of the includes, or the first file that none of `files` holds.
pub open spec fn include_fields(incs: Seq<IncludeView>, files: Seq<SchemaView>) -> Result<
    Seq<FieldView>,
    Seq<char>,
>
    decreases incs.len(),
{
    if incs.len() == 0 {
        Ok(Seq::empty())
    } else {
        match include_fields(incs.drop_last(), files) {
            Err(f) => Err(f),
            Ok(fs) => {
                let k = file_index(files, incs.last().filename);
                if k >= 0 {
                    Ok(fs.push(include_field(files[k], incs.last())))
                } else {
                    Err(incs.last().filename)
                }
            },
        }
    }
}

/// The trailing text field of an element that has a scalar type.
pub open spec fn text_fields(e: SchemaView) -> Seq<FieldView> {
    if e.rtype.len() > 0 {
        seq![
            FieldView {
                tag: Seq::empty(),
                field_name: "data"@,
                kind: FieldKind::Text,
                base: BaseView::Scalar(StorageType::Text),
                wrapper: Wrapper::Bare,
            },
        ]
    } else {
        Seq::empty()
    }
}

/// The fields of `e`'s type: attributes, children, includes, then its text.
pub open spec fn own_fields(e: SchemaView, prefix: Seq<char>, incf: Seq<FieldView>) -> Seq<FieldView> {
    e.attributes.map_values(|a: AttributeView| attribute_field(a)) + e.children.map_values(
        |c: SchemaView| child_field(c, child_prefix(e, prefix)),
    ) + incf + text_fields(e)
}

pub open spec fn own_type(e: SchemaView, prefix: Seq<char>, incf: Seq<FieldView>) -> TypeDefView {
    TypeDefView {
        name: generated_name(e, prefix),
        tag: e.name,
        source_file: e.source_file,
        description: e.description,
        fields: own_fields(e, prefix, incf),
    }
}

/// The types that `e` compiles to: its own, then those of its nested
/// children depth first. Fails with the first include that `files` cannot
/// resolve, nested children first.
pub open spec fn generate(e: SchemaView, prefix: Seq<char>, files: Seq<SchemaView>) -> Result<
    Seq<TypeDefView>,
    Seq<char>,
>
    decreases e,
{
    match generate_nested(e.children, child_prefix(e, prefix), files) {
        Err(f) => Err(f),
        Ok(nested) => match include_fields(e.includes, files) {
            Err(f) => Err(f),
            Ok(incf) => Ok(seq![own_type(e, prefix, incf)] + nested),
        },
    }
}

pub open spec fn generate_nested(kids: Seq<SchemaView>, cp: Seq<char>, files: Seq<SchemaView>) -> Result<
    Seq<TypeDefView>,
    Seq<char>,
>
    decreases kids,
{
    if kids.len() == 0 {
        Ok(Seq::empty())
    } else {
        match generate_nested(kids.drop_last(), cp, files) {
            Err(f) => Err(f),
            Ok(before) => if is_nested(kids.last()) {
                match generate(kids.last(), cp, files) {
                    Err(f) => Err(f),
                    Ok(ts) => Ok(before + ts),
                }
            } else {
                Ok(before)
            },
        }
    }
}


/// The Rust text of a base type.
pub open spec fn base_text(b: BaseView) -> Seq<char> {
    match b {
        BaseView::Scalar(StorageType::Float) => "f64"@,
        BaseView::Scalar(StorageType::Bool) => "bool"@,
        BaseView::Scalar(StorageType::Vector3d) => "Vector3d"@,
        BaseView::Scalar(StorageType::Text) => "String"@,
        BaseView::Named(n) => n,
    }
}

/// The Rust text of a field's type: nullable is `Option<_>`, bare is the
/// base type, a sequence is `Vec<_>`, a boxed sequence `Vec<Boxed<_>>`.
pub open spec fn type_text(b: BaseView, w: Wrapper) -> Seq<char> {
    match w {
        Wrapper::Nullable => "Option<"@ + base_text(b) + ">"@,
        Wrapper::Bare => base_text(b),
        Wrapper::Sequence => "Vec<"@ + base_text(b) + ">"@,
        Wrapper::BoxedSequence => "Vec<Boxed<"@ + base_text(b) + ">>"@,
    }
}

/// The Rust text of a field's type.
pub fn field_type_text(f: &FieldDef) -> (r: String)
    ensures
        r@ == type_text(f@.base, f@.wrapper),
{
    let base = match &f.base {
        BaseType::Scalar(StorageType::Float) => "f64".to_owned(),
        BaseType::Scalar(StorageType::Bool) => "bool".to_owned(),
        BaseType::Scalar(StorageType::Vector3d) => "Vector3d".to_owned(),
        BaseType::Scalar(StorageType::Text) => "String".to_owned(),
        BaseType::Named(n) => n.clone(),
    };
    let mut r = String::new();
    match f.wrapper {
        Wrapper::Nullable => {
            r.append("Option<");
            r.append(base.as_str());
            r.append(">");
        },
        Wrapper::Bare => {
            r.append(base.as_str());
        },
        Wrapper::Sequence => {
            r.append("Vec<");
            r.append(base.as_str());
            r.append(">");
        },
        Wrapper::BoxedSequence => {
            r.append("Vec<Boxed<");
            r.append(base.as_str());
            r.append(">>");
        },
    }
    proof {
        assert(r@ =~= type_text(f@.base, f@.wrapper));
    }
    r
}

pub open spec fn fields_view(fs: Seq<FieldDef>) -> Seq<FieldView> {
    fs.map_values(|f: FieldDef| f@)
}

proof fn lemma_nested_err(kids: Seq<SchemaView>, cp: Seq<char>, files: Seq<SchemaView>, j: int)
    requires
        0 <= j <= kids.len(),
        generate_nested(kids.take(j), cp, files) is Err,
    ensures
        generate_nested(kids, cp, files) == generate_nested(kids.take(j), cp, files),
    decreases kids.len(),
{
    if j == kids.len() {
        assert(kids.take(j) =~= kids);
    } else {
        assert(kids.drop_last().take(j) =~= kids.take(j));
        lemma_nested_err(kids.drop_last(), cp, files, j);
    }
}

proof fn lemma_include_err(incs: Seq<IncludeView>, files: Seq<SchemaView>, j: int)
    requires
        0 <= j <= incs.len(),
        include_fields(incs.take(j), files) is Err,
    ensures
        include_fields(incs, files) == include_fields(incs.take(j), files),
    decreases incs.len(),
{
    if j == incs.len() {
        assert(incs.take(j) =~= incs);
    } else {
        assert(incs.drop_last().take(j) =~= incs.take(j));
        lemma_include_err(incs.drop_last(), files, j);
    }
}

fn attribute_field_of(a: &SchemaAttribute) -> (r: FieldDef)
    ensures
        r@ == attribute_field(a@),
{
    FieldDef {
        tag: a.name.clone(),
        field_name: sanitize_field(to_snake(a.name.as_str()).as_str()),
        kind: FieldKind::Attribute,
        base: BaseType::Scalar(storage_type(a.rtype.as_str())),
        wrapper: a.required.wrapper(),
    }
}

fn child_field_of(c: &SchemaElement, cp: &String) -> (r: FieldDef)
    ensures
        r@ == child_field(c@, cp@),
{
    if c.rtype.as_str().unicode_len() == 0 {
        match &c.reference {
            Some(rf) => {
                let mut target = "Sdf".to_owned();
                target.append(to_pascal(rf.as_str()).as_str());
                FieldDef {
                    tag: rf.clone(),
                    field_name: sanitize_field(to_snake(rf.as_str()).as_str()),
                    kind: FieldKind::Child,
                    base: BaseType::Named(target),
                    wrapper: Wrapper::BoxedSequence,
                }
            },
            None => {
                let mut target = prefix_type_of(cp.as_str());
                target.append(type_stem_of(c).as_str());
                FieldDef {
                    tag: c.name.clone(),
                    field_name: sanitize_field(to_snake(c.name.as_str()).as_str()),
                    kind: FieldKind::Child,
                    base: BaseType::Named(target),
                    wrapper: c.required.wrapper(),
                }
            },
        }
    } else {
        FieldDef {
            tag: c.name.clone(),
            field_name: sanitize_field(to_snake(c.name.as_str()).as_str()),
            kind: FieldKind::Child,
            base: BaseType::Scalar(storage_type(c.rtype.as_str())),
            wrapper: c.required.wrapper(),
        }
    }
}

fn include_field_of(target: &SchemaElement, inc: &SchemaInclude) -> (r: FieldDef)
    ensures
        r@ == include_field(target@, inc@),
{
    let tag = to_snake(target.name.as_str());
    let field_name = sanitize_field(tag.as_str());
    let mut name = "Sdf".to_owned();
    name.append(type_stem_of(target).as_str());
    FieldDef {
        tag,
        field_name,
        kind: FieldKind::Child,
        base: BaseType::Named(name),
        wrapper: inc.required.wrapper(),
    }
}

/// The first of `files` declared in the file `f`.
fn find_file(files: &Vec<SchemaElement>, f: &String) -> (r: Option<usize>)
    ensures
        match r {
            Some(i) => i < files@.len() && i == file_index(schemas_view(files@), f@),
            None => file_index(schemas_view(files@), f@) == -1,
        },
{
    proof {
        lemma_schemas_view(files@);
    }
    let ghost fv = schemas_view(files@);
    let mut i: usize = 0;
    while i < files.len()
        invariant
            i <= files@.len(),
            fv == schemas_view(files@),
            fv.len() == files@.len(),
            forall|j: int| 0 <= j < files@.len() ==> #[trigger] fv[j] == files@[j]@,
            file_index(fv.take(i as int), f@) == -1,
        decreases files@.len() - i,
    {
        proof {
            assert(fv.take(i + 1).drop_last() =~= fv.take(i as int));
        }
        if files[i].source_file == *f {
            proof {
                lemma_file_index_prefix(fv, f@, i + 1);
            }
            return Some(i);
        }
        i = i + 1;
    }
    proof {
        assert(fv.take(i as int) =~= fv);
    }
    None
}

proof fn lemma_file_index_prefix(files: Seq<SchemaView>, f: Seq<char>, j: int)
    requires
        0 <= j <= files.len(),
        file_index(files.take(j), f) >= 0,
    ensures
        file_index(files, f) == file_index(files.take(j), f),
    decreases files.len(),
{
    if j == files.len() {
        assert(files.take(j) =~= files);
    } else {
        assert(files.drop_last().take(j) =~= files.take(j));
        lemma_file_index_prefix(files.drop_last(), f, j);
    }
}

/// The types that `e` compiles to under `prefix`, resolving includes among
/// `files`.
pub fn generate_types(e: &SchemaElement, prefix: &str, files: &Vec<SchemaElement>) -> (r: Result<
    Vec<TypeDef>,
    SchemaError,
>)
    ensures
        match r {
            Ok(ts) => generate(e@, prefix@, schemas_view(files@)) == Ok::<
                Seq<TypeDefView>,
                Seq<char>,
            >(typedefs_view(ts@)),
            Err(SchemaError::UnresolvedInclude(f)) => generate(
                e@,
                prefix@,
                schemas_view(files@),
            ) == Err::<Seq<TypeDefView>, Seq<char>>(f@),
            Err(SchemaError::MissingIncludeTarget) => false,
        },
    decreases e,
{
    let ghost fv = schemas_view(files@);
    let ghost ev = e@;
    proof {
        lemma_schemas_view(e.children@);
        lemma_schemas_view(files@);
    }
    let stem = type_stem_of(e);
    let mut name = prefix_type_of(prefix);
    name.append(stem.as_str());
    let mut inner = to_pascal(prefix);
    inner.append(stem.as_str());
    let cp = prefix_type_of(inner.as_str());
    proof {
        assert(cp@ == child_prefix(ev, prefix@));
    }
    let mut fields: Vec<FieldDef> = Vec::new();
    let mut i: usize = 0;
    while i < e.attributes.len()
        invariant
            i <= e.attributes@.len(),
            fields_view(fields@) == e.attributes@.take(i as int).map_values(|a: SchemaAttribute| a@).map_values(
                |a: AttributeView| attribute_field(a),
            ),
        decreases e.attributes@.len() - i,
    {
        let fd = attribute_field_of(&e.attributes[i]);
        let ghost before = fields_view(fields@);
        fields.push(fd);
        proof {
            assert(fields_view(fields@) =~= before.push(fd@));
            assert(e.attributes@.take(i + 1) =~= e.attributes@.take(i as int).push(
                e.attributes@[i as int],
            ));
            assert(fields_view(fields@) =~= e.attributes@.take(i + 1).map_values(
                |a: SchemaAttribute| a@,
            ).map_values(|a: AttributeView| attribute_field(a)));
        }
        i = i + 1;
    }
    let ghost attr_fields = fields_view(fields@);
    proof {
        assert(e.attributes@.take(i as int) =~= e.attributes@);
        assert(attr_fields =~= ev.attributes.map_values(|a: AttributeView| attribute_field(a)));
    }
    let mut nested: Vec<TypeDef> = Vec::new();
    let mut k: usize = 0;
    proof {
        assert(ev.children.take(0) =~= Seq::<SchemaView>::empty());
        assert(typedefs_view(nested@) =~= Seq::<TypeDefView>::empty());
        assert(fields_view(fields@) =~= attr_fields + ev.children.take(0).map_values(
            |c: SchemaView| child_field(c, child_prefix(ev, prefix@)),
        ));
    }
    while k < e.children.len()
        invariant
            k <= e.children@.len(),
            ev == e@,
            fv == schemas_view(files@),
            cp@ == child_prefix(ev, prefix@),
            ev.children.len() == e.children@.len(),
            forall|j: int| 0 <= j < e.children@.len() ==> #[trigger] ev.children[j] == e.children@[j]@,
            fields_view(fields@) == attr_fields + ev.children.take(k as int).map_values(
                |c: SchemaView| child_field(c, child_prefix(ev, prefix@)),
            ),
            generate_nested(ev.children.take(k as int), cp@, fv) == Ok::<
                Seq<TypeDefView>,
                Seq<char>,
            >(typedefs_view(nested@)),
        decreases e.children@.len() - k,
    {
        let c = &e.children[k];
        let fd = child_field_of(c, &cp);
        let ghost before_fields = fields_view(fields@);
        fields.push(fd);
        let ghost kids = ev.children.take(k + 1);
        proof {
            assert(fields_view(fields@) =~= before_fields.push(fd@));
            assert(kids =~= ev.children.take(k as int).push(c@));
            assert(kids.drop_last() =~= ev.children.take(k as int));
            assert(kids.last() == c@);
            assert(fields_view(fields@) =~= attr_fields + kids.map_values(
                |c: SchemaView| child_field(c, child_prefix(ev, prefix@)),
            ));
        }
        if c.rtype.as_str().unicode_len() == 0 && c.reference.is_none() {
            proof {
                assert(decreases_to!(e.children => e.children@));
            }
            match generate_types(c, cp.as_str(), files) {
                Ok(mut ts) => {
                    let ghost before = nested@;
                    let ghost tsv = typedefs_view(ts@);
                    nested.append(&mut ts);
                    proof {
                        assert(typedefs_view(nested@) =~= typedefs_view(before) + tsv);
                    }
                },
                Err(err) => {
                    proof {
                        lemma_nested_err(ev.children, cp@, fv, k + 1);
                    }
                    return Err(err);
                },
            }
        }
        k = k + 1;
    }
    proof {
        assert(ev.children.take(k as int) =~= ev.children);
        assert(ev.includes.take(0) =~= Seq::<IncludeView>::empty());
    }
    let ghost child_fields = fields_view(fields@);
    let mut m: usize = 0;
    while m < e.includes.len()
        invariant
            m <= e.includes@.len(),
            ev == e@,
            generate_nested(ev.children, child_prefix(ev, prefix@), fv) is Ok,
            fv == schemas_view(files@),
            fv.len() == files@.len(),
            forall|j: int| 0 <= j < files@.len() ==> #[trigger] fv[j] == files@[j]@,
            ({
                let incs = ev.includes.take(m as int);
                include_fields(incs, fv) is Ok && fields_view(fields@) == child_fields + include_fields(
                    incs,
                    fv,
                )->Ok_0
            }),
        decreases e.includes@.len() - m,
    {
        let inc = &e.includes[m];
        let ghost incs = ev.includes.take(m + 1);
        proof {
            assert(incs.drop_last() =~= ev.includes.take(m as int));
            assert(incs.last() == inc@);
        }
        match find_file(files, &inc.filename) {
            Some(t) => {
                let fd = include_field_of(&files[t], inc);
                let ghost before = fields_view(fields@);
                fields.push(fd);
                proof {
                    assert(fields_view(fields@) =~= before.push(fd@));
                    assert(fields_view(fields@) =~= child_fields + include_fields(incs, fv)->Ok_0);
                }
            },
            None => {
                proof {
                    assert(include_fields(incs, fv) == Err::<Seq<FieldView>, Seq<char>>(
                        inc.filename@,
                    ));
                    lemma_include_err(ev.includes, fv, m + 1);
                }
                return Err(SchemaError::UnresolvedInclude(inc.filename.clone()));
            },
        }
        m = m + 1;
    }
    proof {
        assert(ev.includes.take(m as int) =~= ev.includes);
    }
    if e.rtype.as_str().unicode_len() > 0 {
        let ghost before = fields_view(fields@);
        fields.push(
            FieldDef {
                tag: String::new(),
                field_name: "data".to_owned(),
                kind: FieldKind::Text,
                base: BaseType::Scalar(StorageType::Text),
                wrapper: Wrapper::Bare,
            },
        );
        proof {
            assert(fields_view(fields@) =~= before + text_fields(ev));
        }
    } else {
        proof {
            assert(fields_view(fields@) =~= fields_view(fields@) + text_fields(ev));
        }
    }
    let own = TypeDef {
        name,
        tag: e.name.clone(),
        source_file: e.source_file.clone(),
        description: e.description.clone(),
        fields,
    };
    let mut out: Vec<TypeDef> = Vec::new();
    out.push(own);
    let ghost own_v = own@;
    let ghost nested_v = typedefs_view(nested@);
    out.append(&mut nested);
    proof {
        assert(own_v.fields =~= own_fields(ev, prefix@, include_fields(ev.includes, fv)->Ok_0));
        assert(typedefs_view(out@) =~= seq![own_v] + nested_v);
    }
    Ok(out)
}


/// The types of every file of `models` whose file name `excluded` does not
/// list, in order; includes resolve among `files`.
pub open spec fn compile_models(
    models: Seq<SchemaView>,
    files: Seq<SchemaView>,
    excluded: Seq<Seq<char>>,
) -> Result<Seq<TypeDefView>, Seq<char>>
    decreases models.len(),
{
    if models.len() == 0 {
        Ok(Seq::empty())
    } else {
        match compile_models(models.drop_last(), files, excluded) {
            Err(f) => Err(f),
            Ok(before) => if excluded.contains(models.last().source_file) {
                Ok(before)
            } else {
                match generate(models.last(), Seq::empty(), files) {
                    Err(f) => Err(f),
                    Ok(ts) => Ok(before + ts),
                }
            },
        }
    }
}

proof fn lemma_compile_err(
    models: Seq<SchemaView>,
    files: Seq<SchemaView>,
    excluded: Seq<Seq<char>>,
    j: int,
)
    requires
        0 <= j <= models.len(),
        compile_models(models.take(j), files, excluded) is Err,
    ensures
        compile_models(models, files, excluded) == compile_models(models.take(j), files, excluded),
    decreases models.len(),
{
    if j == models.len() {
        assert(models.take(j) =~= models);
    } else {
        assert(models.drop_last().take(j) =~= models.take(j));
        lemma_compile_err(models.drop_last(), files, excluded, j);
    }
}

fn is_excluded(excluded: &Vec<String>, f: &String) -> (r: bool)
    ensures
        r == excluded@.map_values(|x: String| x@).contains(f@),
{
    let ghost ev = excluded@.map_values(|x: String| x@);
    let mut i: usize = 0;
    while i < excluded.len()
        invariant
            i <= excluded@.len(),
            ev == excluded@.map_values(|x: String| x@),
            forall|j: int| 0 <= j < i ==> ev[j] != f@,
        decreases excluded@.len() - i,
    {
        if excluded[i] == *f {
            proof {
                assert(ev[i as int] == f@);
            }
            return true;
        }
        i = i + 1;
    }
    false
}

/// Compiles every schema file of `files` but those that `excluded` names,
/// which are kept by hand.
pub fn compile(files: &Vec<SchemaElement>, excluded: &Vec<String>) -> (r: Result<
    Vec<TypeDef>,
    SchemaError,
>)
    ensures
        ({
            let fv = schemas_view(files@);
            let xv = excluded@.map_values(|x: String| x@);
            match r {
                Ok(ts) => compile_models(fv, fv, xv) == Ok::<Seq<TypeDefView>, Seq<char>>(
                    typedefs_view(ts@),
                ),
                Err(SchemaError::UnresolvedInclude(f)) => compile_models(fv, fv, xv) == Err::<
                    Seq<TypeDefView>,
                    Seq<char>,
                >(f@),
                Err(SchemaError::MissingIncludeTarget) => false,
            }
        }),
{
    let ghost fv = schemas_view(files@);
    let ghost xv = excluded@.map_values(|x: String| x@);
    proof {
        lemma_schemas_view(files@);
        assert(fv.take(0) =~= Seq::<SchemaView>::empty());
    }
    let mut out: Vec<TypeDef> = Vec::new();
    proof {
        assert(typedefs_view(out@) =~= Seq::<TypeDefView>::empty());
    }
    let mut i: usize = 0;
    while i < files.len()
        invariant
            i <= files@.len(),
            fv == schemas_view(files@),
            xv == excluded@.map_values(|x: String| x@),
            fv.len() == files@.len(),
            forall|j: int| 0 <= j < files@.len() ==> #[trigger] fv[j] == files@[j]@,
            compile_models(fv.take(i as int), fv, xv) == Ok::<Seq<TypeDefView>, Seq<char>>(
                typedefs_view(out@),
            ),
        decreases files@.len() - i,
    {
        let ghost models = fv.take(i + 1);
        proof {
            assert(models.drop_last() =~= fv.take(i as int));
            assert(models.last() == files@[i as int]@);
        }
        if !is_excluded(excluded, &files[i].source_file) {
            match generate_types(&files[i], "", files) {
                Ok(mut ts) => {
                    let ghost before = typedefs_view(out@);
                    let ghost tsv = typedefs_view(ts@);
                    proof {
                        reveal_strlit("");
                        assert(""@ =~= Seq::<char>::empty());
                    }
                    out.append(&mut ts);
                    proof {
                        assert(typedefs_view(out@) =~= before + tsv);
                    }
                },
                Err(err) => {
                    proof {
                        reveal_strlit("");
                        assert(""@ =~= Seq::<char>::empty());
                        lemma_compile_err(fv, fv, xv, i + 1);
                    }
                    return Err(err);
                },
            }
        }
        i = i + 1;
    }
    proof {
        assert(fv.take(i as int) =~= fv);
    }
    Ok(out)
}

/// The number of types an element compiles to: its own and one per nested
/// declaration below it; a reference adds none.
pub open spec fn type_count(e: SchemaView) -> nat
    decreases e,
{
    1 + nested_count(e.children)
}

pub open spec fn nested_count(kids: Seq<SchemaView>) -> nat
    decreases kids,
{
    if kids.len() == 0 {
        0
    } else {
        nested_count(kids.drop_last()) + if is_nested(kids.last()) {
            type_count(kids.last())
        } else {
            0
        }
    }
}

proof fn lemma_generate_count(e: SchemaView, prefix: Seq<char>, files: Seq<SchemaView>)
    requires
        generate(e, prefix, files) is Ok,
    ensures
        generate(e, prefix, files)->Ok_0.len() == type_count(e),
    decreases e,
{
    lemma_nested_count(e.children, child_prefix(e, prefix), files);
}

proof fn lemma_nested_count(kids: Seq<SchemaView>, cp: Seq<char>, files: Seq<SchemaView>)
    requires
        generate_nested(kids, cp, files) is Ok,
    ensures
        generate_nested(kids, cp, files)->Ok_0.len() == nested_count(kids),
    decreases kids,
{
    if kids.len() > 0 {
        lemma_nested_count(kids.drop_last(), cp, files);
        if is_nested(kids.last()) {
            lemma_generate_count(kids.last(), cp, files);
        }
    }
}

/// A child that refers to an element (itself or an ancestor, say) compiles
/// to a boxed sequence of the referenced type and to no type of its own, so
/// the types an element compiles to are finite in number: one per nested
/// declaration.
pub proof fn law_reference_slot_is_boxed(e: SchemaView, prefix: Seq<char>, files: Seq<SchemaView>)
    requires
        generate(e, prefix, files) is Ok,
    ensures
        generate(e, prefix, files)->Ok_0.len() == type_count(e),
        forall|i: int|
            0 <= i < e.children.len() && (#[trigger] e.children[i]).rtype.len() == 0
                && e.children[i].reference is Some ==> {
                let f = generate(e, prefix, files)->Ok_0[0].fields[e.attributes.len() + i];
                &&& f.wrapper == Wrapper::BoxedSequence
                &&& f.base == BaseView::Named("Sdf"@ + pascal_case(e.children[i].reference->0))
                &&& f.tag == e.children[i].reference->0
            },
{
    lemma_generate_count(e, prefix, files);
    let incf = include_fields(e.includes, files)->Ok_0;
    let fs = own_fields(e, prefix, incf);
    assert forall|i: int|
        0 <= i < e.children.len() && (#[trigger] e.children[i]).rtype.len() == 0
            && e.children[i].reference is Some implies fs[e.attributes.len() + i]
        == child_field(e.children[i], child_prefix(e, prefix)) by {
        let a = e.attributes.map_values(|a: AttributeView| attribute_field(a));
        let c = e.children.map_values(|c: SchemaView| child_field(c, child_prefix(e, prefix)));
        assert((a + c + incf + text_fields(e))[a.len() + i] == c[i]);
    }
}

/// Every scalar type that is not `double`, `bool` or `vector3` is stored as
/// text.
pub proof fn law_unknown_type_is_text(t: Seq<char>)
    requires
        t != "double"@,
        t != "bool"@,
        t != "vector3"@,
    ensures
        storage_of(t) == StorageType::Text,
{
}

/// Whether every include in `e` and the declarations nested in it names a
/// file of `files`.
pub open spec fn includes_resolve(e: SchemaView, files: Seq<SchemaView>) -> bool
    decreases e,
{
    &&& forall|i: int|
        0 <= i < e.includes.len() ==> file_index(files, #[trigger] e.includes[i].filename) >= 0
    &&& nested_resolve(e.children, files)
}

pub open spec fn nested_resolve(kids: Seq<SchemaView>, files: Seq<SchemaView>) -> bool
    decreases kids,
{
    kids.len() > 0 ==> nested_resolve(kids.drop_last(), files) && (is_nested(kids.last())
        ==> includes_resolve(kids.last(), files))
}

proof fn lemma_include_fields_ok(incs: Seq<IncludeView>, files: Seq<SchemaView>)
    requires
        forall|i: int| 0 <= i < incs.len() ==> file_index(files, #[trigger] incs[i].filename) >= 0,
    ensures
        include_fields(incs, files) is Ok,
    decreases incs.len(),
{
    if incs.len() > 0 {
        let t = incs.drop_last();
        assert forall|i: int| 0 <= i < t.len() implies file_index(files, #[trigger] t[i].filename)
            >= 0 by {
            assert(t[i] == incs[i]);
        }
        lemma_include_fields_ok(t, files);
        assert(file_index(files, incs[incs.len() - 1].filename) >= 0);
    }
}

/// Compiling fails only on an include that names no known file: whatever
/// scalar types the declarations use, an element whose includes all resolve
/// compiles.
pub proof fn law_types_never_fail(e: SchemaView, prefix: Seq<char>, files: Seq<SchemaView>)
    requires
        includes_resolve(e, files),
    ensures
        generate(e, prefix, files) is Ok,
    decreases e,
{
    lemma_nested_never_fail(e.children, child_prefix(e, prefix), files);
    lemma_include_fields_ok(e.includes, files);
}

proof fn lemma_nested_never_fail(kids: Seq<SchemaView>, cp: Seq<char>, files: Seq<SchemaView>)
    requires
        nested_resolve(kids, files),
    ensures
        generate_nested(kids, cp, files) is Ok,
    decreases kids,
{
    if kids.len() > 0 {
        lemma_nested_never_fail(kids.drop_last(), cp, files);
        if is_nested(kids.last()) {
            law_types_never_fail(kids.last(), cp, files);
        }
    }
}

} // verus!
