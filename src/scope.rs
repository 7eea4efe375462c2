use vstd::prelude::*;

verus! {

/// Identifier reserved for the payload field.
pub const PAYLOAD_ID: u64 = 0;

/// Identifier reserved for the body field.
pub const BODY_ID: u64 = 1;

/// A source location, as a byte range.
#[derive(Clone, Copy, Debug, PartialEq, Eq, Structural)]
pub struct SourceRange {
    pub start: usize,
    pub end: usize,
}

/// The kind of a field; identifiers are interned symbols.
#[derive(Clone, Copy, Debug, PartialEq, Eq, Structural)]
pub enum FieldDesc {
    Scalar,
    Array,
    Typedef { type_id: u64 },
    Group { group_id: u64, constraints: usize },
    Size { field_id: u64 },
    Count { field_id: u64 },
    Payload,
    Body,
    Other,
}

#[derive(Clone, Copy, Debug, PartialEq, Eq, Structural)]
pub struct Field {
    pub id: Option<u64>,
    pub desc: FieldDesc,
    pub loc: SourceRange,
}

#[derive(Clone, Copy, Debug, PartialEq, Eq, Structural)]
pub enum DeclKind {
    Packet,
    Struct,
    Group,
    Enum,
    Checksum,
    CustomField,
    Typedef,
}

/// A constraint binds a value to a field identifier.
#[derive(Clone, Copy, Debug, PartialEq, Eq, Structural)]
pub struct Constraint {
    pub id: u64,
    pub value: u64,
    pub loc: SourceRange,
}

pub struct Decl {
    pub id: Option<u64>,
    pub kind: DeclKind,
    pub parent_id: Option<u64>,
    pub fields: Vec<Field>,
    /// Constraints of a Packet or Struct on inherited fields.
    pub constraints: Vec<Constraint>,
    /// Constraint lists of the group fields: `FieldDesc::Group { constraints: c, .. }`
    /// binds the list `group_constraints[c]`.
    pub group_constraints: Vec<Vec<Constraint>>,
    pub loc: SourceRange,
}

pub struct File {
    pub declarations: Vec<Decl>,
}

/// A diagnostic; `ShadowsParentField` is a warning, the others are errors.
#[derive(Clone, Copy, Debug, PartialEq, Eq, Structural)]
pub enum Diagnostic {
    Redeclared { id: u64, kind: DeclKind, loc: SourceRange, prev: SourceRange },
    Recursive { id: u64, kind: DeclKind, loc: SourceRange },
    UndeclaredGroup { id: u64, loc: SourceRange },
    InvalidGroup { id: u64, loc: SourceRange },
    UndeclaredTypedef { id: u64, loc: SourceRange },
    UndeclaredParent { id: u64, kind: DeclKind, loc: SourceRange },
    InvalidParent { id: u64, kind: DeclKind, loc: SourceRange },
    GroupRedeclaresField { id: u64, loc: SourceRange, prev: SourceRange },
    ShadowsParentField { id: u64, loc: SourceRange, prev: SourceRange },
}

impl Diagnostic {
    pub fn is_warning(&self) -> (r: bool)
        ensures
            r == (self is ShadowsParentField),
    {
        match self {
            Diagnostic::ShadowsParentField { .. } => true,
            _ => false,
        }
    }
}

pub struct LintDiagnostics {
    pub diagnostics: Vec<Diagnostic>,
}

/// Gather information about a Packet, Struct, or Group declaration.
/// The four keyed collections hold at most one entry per identifier.
pub struct PacketScope {
    /// Local named fields.
    pub named: Vec<Field>,
    /// Flattened field declarations.
    pub fields: Vec<Field>,
    /// Constraints gathered from group inlining.
    pub constraints: Vec<Constraint>,
    /// Local and inherited named fields.
    pub all_fields: Vec<Field>,
    /// Local and inherited constraints.
    pub all_constraints: Vec<Constraint>,
}

/// Gather information about the full declaration list.
pub struct Scope {
    pub declarations: Vec<Decl>,
    /// Indices into `declarations` of the first declaration of each identifier.
    pub typedef: Vec<usize>,
    /// The resolved scope of each composite declaration, by index.
    pub scopes: Vec<Option<PacketScope>>,
    /// Composite declarations in resolution order.
    pub order: Vec<usize>,
}

// Keyed collections: a sequence of entries with pairwise distinct identifiers.

pub open spec fn keyed(s: Seq<Field>) -> bool {
    (forall|i: int| 0 <= i < s.len() ==> (#[trigger] s[i]).id.is_some()) && forall|i: int, j: int|
        0 <= i < s.len() && 0 <= j < s.len() && (#[trigger] s[i]).id == (#[trigger] s[j]).id ==> i == j
}

pub open spec fn has_key(s: Seq<Field>, id: Option<u64>) -> bool {
    exists|p: int| 0 <= p < s.len() && (#[trigger] s[p]).id == id
}

pub open spec fn key_pos(s: Seq<Field>, id: Option<u64>) -> int {
    choose|p: int| 0 <= p < s.len() && (#[trigger] s[p]).id == id
}

/// `s` with `f` entered under its identifier, replacing a previous entry.
pub open spec fn overlay(s: Seq<Field>, f: Field) -> Seq<Field> {
    if f.id.is_none() {
        s
    } else if has_key(s, f.id) {
        s.update(key_pos(s, f.id), f)
    } else {
        s.push(f)
    }
}

/// `s` with each field of `fs` entered in order.
pub open spec fn overlay_all(s: Seq<Field>, fs: Seq<Field>) -> Seq<Field>
    decreases fs.len(),
{
    if fs.len() == 0 {
        s
    } else {
        overlay(overlay_all(s, fs.drop_last()), fs.last())
    }
}

pub open spec fn c_keyed(s: Seq<Constraint>) -> bool {
    forall|i: int, j: int|
        0 <= i < s.len() && 0 <= j < s.len() && (#[trigger] s[i]).id == (#[trigger] s[j]).id ==> i == j
}

pub open spec fn c_has_key(s: Seq<Constraint>, id: u64) -> bool {
    exists|p: int| 0 <= p < s.len() && (#[trigger] s[p]).id == id
}

/// `s` with `c` entered under its identifier, replacing a previous entry.
pub open spec fn c_overlay(s: Seq<Constraint>, c: Constraint) -> Seq<Constraint> {
    if c_has_key(s, c.id) {
        s.update(choose|p: int| 0 <= p < s.len() && (#[trigger] s[p]).id == c.id, c)
    } else {
        s.push(c)
    }
}

pub open spec fn c_overlay_all(s: Seq<Constraint>, cs: Seq<Constraint>) -> Seq<Constraint>
    decreases cs.len(),
{
    if cs.len() == 0 {
        s
    } else {
        c_overlay(c_overlay_all(s, cs.drop_last()), cs.last())
    }
}

/// The diagnostics raised when entering each field of `fs` in order into
/// `s`: one per field whose identifier is already present. Inlining a group
/// at `site` raises an error at the site; otherwise a shadow warning is raised
/// at the field.
pub open spec fn clashes(s: Seq<Field>, fs: Seq<Field>, site: Option<SourceRange>) -> Seq<Diagnostic>
    decreases fs.len(),
{
    if fs.len() == 0 {
        seq![]
    } else {
        let pre = overlay_all(s, fs.drop_last());
        let f = fs.last();
        clashes(s, fs.drop_last(), site) + if f.id.is_some() && has_key(pre, f.id) {
            let prev = pre[key_pos(pre, f.id)].loc;
            match site {
                Some(l) => seq![Diagnostic::GroupRedeclaresField { id: f.id.unwrap(), loc: l, prev }],
                None => seq![Diagnostic::ShadowsParentField { id: f.id.unwrap(), loc: f.loc, prev }],
            }
        } else {
            seq![]
        }
    }
}

proof fn lemma_overlay_keyed(s: Seq<Field>, f: Field)
    requires
        keyed(s),
    ensures
        keyed(overlay(s, f)),
{
    let t = overlay(s, f);
    if f.id.is_some() && has_key(s, f.id) {
        let q = key_pos(s, f.id);
        assert forall|i: int, j: int|
            0 <= i < t.len() && 0 <= j < t.len() && (#[trigger] t[i]).id == (#[trigger] t[j]).id implies i == j by {
            if i != q && j != q {
                assert(s[i].id == s[j].id);
            } else if i == q && j != q {
                assert(s[j].id == s[q].id);
            } else if j == q && i != q {
                assert(s[i].id == s[q].id);
            }
        }
    } else if f.id.is_some() {
        assert forall|i: int, j: int|
            0 <= i < t.len() && 0 <= j < t.len() && (#[trigger] t[i]).id == (#[trigger] t[j]).id implies i == j by {
            if i < s.len() && j < s.len() {
                assert(s[i].id == s[j].id);
            } else if i < s.len() {
                assert(s[i].id == f.id);
            } else if j < s.len() {
                assert(s[j].id == f.id);
            }
        }
    }
}

proof fn lemma_c_overlay_keyed(s: Seq<Constraint>, c: Constraint)
    requires
        c_keyed(s),
    ensures
        c_keyed(c_overlay(s, c)),
{
    let t = c_overlay(s, c);
    if c_has_key(s, c.id) {
        let q = choose|p: int| 0 <= p < s.len() && (#[trigger] s[p]).id == c.id;
        assert forall|i: int, j: int|
            0 <= i < t.len() && 0 <= j < t.len() && (#[trigger] t[i]).id == (#[trigger] t[j]).id implies i == j by {
            if i != q && j != q {
                assert(s[i].id == s[j].id);
            } else if i == q && j != q {
                assert(s[j].id == s[q].id);
            } else if j == q && i != q {
                assert(s[i].id == s[q].id);
            }
        }
    } else {
        assert forall|i: int, j: int|
            0 <= i < t.len() && 0 <= j < t.len() && (#[trigger] t[i]).id == (#[trigger] t[j]).id implies i == j by {
            if i < s.len() && j < s.len() {
                assert(s[i].id == s[j].id);
            } else if i < s.len() {
                assert(s[i].id == c.id);
            } else if j < s.len() {
                assert(s[j].id == c.id);
            }
        }
    }
}

fn find_key(s: &Vec<Field>, id: u64) -> (r: Option<usize>)
    ensures
        r matches Some(p) ==> p < s@.len() && s@[p as int].id == Some(id),
        r is None ==> !has_key(s@, Some(id)),
{
    let mut i: usize = 0;
    while i < s.len()
        invariant
            i <= s@.len(),
            forall|j: int| 0 <= j < i ==> (#[trigger] s@[j]).id != Some(id),
        decreases s@.len() - i,
    {
        if s[i].id == Some(id) {
            return Some(i);
        }
        i = i + 1;
    }
    None
}

/// Enter `f` into the keyed collection `s`, returning the entry it replaced.
fn enter(s: &mut Vec<Field>, f: Field) -> (prev: Option<Field>)
    requires
        keyed(old(s)@),
    ensures
        keyed(final(s)@),
        final(s)@ == overlay(old(s)@, f),
        prev == (if f.id.is_some() && has_key(old(s)@, f.id) {
            Some(old(s)@[key_pos(old(s)@, f.id)])
        } else {
            None
        }),
{
    proof {
        lemma_overlay_keyed(old(s)@, f);
    }
    match f.id {
        None => None,
        Some(k) => match find_key(s, k) {
            Some(p) => {
                let prev = s[p];
                proof {
                    let q = key_pos(old(s)@, f.id);
                    assert(old(s)@[q].id == f.id);
                    assert(old(s)@[p as int].id == f.id);
                    assert(q == p);
                }
                s.set(p, f);
                Some(prev)
            },
            None => {
                s.push(f);
                None
            },
        },
    }
}

fn c_enter(s: &mut Vec<Constraint>, c: Constraint)
    requires
        c_keyed(old(s)@),
    ensures
        c_keyed(final(s)@),
        final(s)@ == c_overlay(old(s)@, c),
{
    proof {
        lemma_c_overlay_keyed(old(s)@, c);
    }
    let mut i: usize = 0;
    while i < s.len()
        invariant
            i <= s@.len(),
            s@ == old(s)@,
            c_keyed(s@),
            forall|j: int| 0 <= j < i ==> (#[trigger] s@[j]).id != c.id,
        decreases s@.len() - i,
    {
        if s[i].id == c.id {
            proof {
                let q = choose|p: int| 0 <= p < s@.len() && (#[trigger] s@[p]).id == c.id;
                assert(s@[q].id == c.id);
                assert(s@[i as int].id == c.id);
                assert(q == i);
            }
            s.set(i, c);
            return;
        }
        i = i + 1;
    }
    s.push(c);
}

fn c_enter_all(s: &mut Vec<Constraint>, cs: &Vec<Constraint>)
    requires
        c_keyed(old(s)@),
    ensures
        c_keyed(final(s)@),
        final(s)@ == c_overlay_all(old(s)@, cs@),
{
    let mut i: usize = 0;
    while i < cs.len()
        invariant
            i <= cs@.len(),
            c_keyed(s@),
            s@ == c_overlay_all(old(s)@, cs@.subrange(0, i as int)),
        decreases cs@.len() - i,
    {
        proof {
            assert(cs@.subrange(0, i + 1).drop_last() =~= cs@.subrange(0, i as int));
        }
        c_enter(s, cs[i]);
        i = i + 1;
    }
    proof {
        assert(cs@.subrange(0, i as int) =~= cs@);
    }
}

/// Enter each field of `fs` in order into `s`, appending one diagnostic to
/// `diags` per identifier already present.
fn enter_all(s: &mut Vec<Field>, fs: &Vec<Field>, site: Option<SourceRange>, diags: &mut Vec<Diagnostic>)
    requires
        keyed(old(s)@),
    ensures
        keyed(final(s)@),
        final(s)@ == overlay_all(old(s)@, fs@),
        final(diags)@ == old(diags)@ + clashes(old(s)@, fs@, site),
{
    let mut i: usize = 0;
    while i < fs.len()
        invariant
            i <= fs@.len(),
            keyed(s@),
            s@ == overlay_all(old(s)@, fs@.subrange(0, i as int)),
            diags@ == old(diags)@ + clashes(old(s)@, fs@.subrange(0, i as int), site),
        decreases fs@.len() - i,
    {
        let f = fs[i];
        proof {
            assert(fs@.subrange(0, i + 1).drop_last() =~= fs@.subrange(0, i as int));
            assert(fs@.subrange(0, i + 1).last() == f);
        }
        let prev = enter(s, f);
        match prev {
            Some(p) => {
                let d = match site {
                    Some(l) => Diagnostic::GroupRedeclaresField { id: f.id.unwrap(), loc: l, prev: p.loc },
                    None => Diagnostic::ShadowsParentField { id: f.id.unwrap(), loc: f.loc, prev: p.loc },
                };
                diags.push(d);
                proof {
                    assert(diags@ =~= old(diags)@ + clashes(old(s)@, fs@.subrange(0, i + 1), site));
                }
            },
            None => {
                proof {
                    assert(diags@ =~= old(diags)@ + clashes(old(s)@, fs@.subrange(0, i + 1), site));
                }
            },
        }
        i = i + 1;
    }
    proof {
        assert(fs@.subrange(0, i as int) =~= fs@);
    }
}

pub open spec fn is_payload(f: Field) -> bool {
    f.desc == FieldDesc::Payload || f.desc == FieldDesc::Body
}

pub open spec fn sizes(f: Field, id: u64) -> bool {
    f.desc == (FieldDesc::Size { field_id: id }) || f.desc == (FieldDesc::Count { field_id: id })
}

pub open spec fn sizes_payload(f: Field) -> bool {
    f.desc == (FieldDesc::Size { field_id: PAYLOAD_ID }) || f.desc == (FieldDesc::Size {
        field_id: BODY_ID,
    })
}

pub open spec fn named_as(f: Field, id: u64) -> bool {
    f.id == Some(id)
}

/// `r` is the first element of `s` that satisfies `p`, or `None` when none does.
pub open spec fn first_match(s: Seq<Field>, p: spec_fn(Field) -> bool, r: Option<Field>) -> bool {
    match r {
        Some(f) => exists|i: int|
            0 <= i < s.len() && s[i] == f && p(f) && forall|j: int| 0 <= j < i ==> !p(#[trigger] s[j]),
        None => forall|i: int| 0 <= i < s.len() ==> !p(#[trigger] s[i]),
    }
}

fn is_payload_exec(f: &Field) -> (r: bool)
    ensures
        r == is_payload(*f),
{
    match f.desc {
        FieldDesc::Payload | FieldDesc::Body => true,
        _ => false,
    }
}

fn sizes_exec(f: &Field, id: u64) -> (r: bool)
    ensures
        r == sizes(*f, id),
{
    match f.desc {
        FieldDesc::Size { field_id } | FieldDesc::Count { field_id } => field_id == id,
        _ => false,
    }
}

fn sizes_payload_exec(f: &Field) -> (r: bool)
    ensures
        r == sizes_payload(*f),
{
    match f.desc {
        FieldDesc::Size { field_id } => field_id == PAYLOAD_ID || field_id == BODY_ID,
        _ => false,
    }
}

impl PacketScope {
    /// The keyed collections hold one entry per identifier.
    pub open spec fn wf(&self) -> bool {
        keyed(self.named@) && keyed(self.all_fields@) && c_keyed(self.constraints@) && c_keyed(
            self.all_constraints@,
        )
    }

    /// An empty scope.
    pub fn empty() -> (r: PacketScope)
        ensures
            r.wf(),
            r.named@.len() == 0 && r.fields@.len() == 0 && r.constraints@.len() == 0
                && r.all_fields@.len() == 0 && r.all_constraints@.len() == 0,
    {
        PacketScope {
            named: Vec::new(),
            fields: Vec::new(),
            constraints: Vec::new(),
            all_fields: Vec::new(),
            all_constraints: Vec::new(),
        }
    }

    /// Insert a field declaration into a packet scope; a named field
    /// replaces an earlier one of the same identifier.
    pub fn insert(&mut self, field: Field)
        requires
            old(self).wf(),
        ensures
            final(self).wf(),
            final(self).named@ == overlay(old(self).named@, field),
            final(self).fields@ == old(self).fields@,
            final(self).constraints@ == old(self).constraints@,
            final(self).all_fields@ == old(self).all_fields@,
            final(self).all_constraints@ == old(self).all_constraints@,
    {
        enter(&mut self.named, field);
    }

    /// Insert the fields and constraints of the resolved group `group`,
    /// included by the group field `site` with the constraints `cs`. Each
    /// named field of the group whose identifier is already present raises
    /// an error at the site.
    pub fn inline(
        &mut self,
        group: &PacketScope,
        site: &Field,
        cs: &Vec<Constraint>,
        diags: &mut Vec<Diagnostic>,
    )
        requires
            old(self).wf(),
        ensures
            final(self).wf(),
            final(self).named@ == overlay_all(old(self).named@, group.named@),
            final(self).fields@ == old(self).fields@ + group.fields@,
            final(self).constraints@ == c_overlay_all(
                c_overlay_all(old(self).constraints@, group.constraints@),
                cs@,
            ),
            final(self).all_fields@ == old(self).all_fields@,
            final(self).all_constraints@ == old(self).all_constraints@,
            final(diags)@ == old(diags)@ + clashes(old(self).named@, group.named@, Some(site.loc)),
    {
        enter_all(&mut self.named, &group.named, Some(site.loc), diags);
        let mut i: usize = 0;
        let ghost f0 = self.fields@;
        assert(f0 == old(self).fields@);
        while i < group.fields.len()
            invariant
                i <= group.fields@.len(),
                self.fields@ == f0 + group.fields@.subrange(0, i as int),
                self.wf(),
                self.named@ == overlay_all(old(self).named@, group.named@),
                self.constraints@ == old(self).constraints@,
                self.all_fields@ == old(self).all_fields@,
                self.all_constraints@ == old(self).all_constraints@,
            decreases group.fields@.len() - i,
        {
            self.fields.push(group.fields[i]);
            proof {
                assert(self.fields@ =~= f0 + group.fields@.subrange(0, i + 1));
            }
            i = i + 1;
        }
        proof {
            assert(group.fields@.subrange(0, i as int) =~= group.fields@);
        }
        c_enter_all(&mut self.constraints, &group.constraints);
        c_enter_all(&mut self.constraints, cs);
    }

    /// Add the fields and constraints of the parent scope; the local
    /// constraints `cs`, then those gathered from groups, override the
    /// parent's.
    pub fn inherit(&mut self, parent: &PacketScope, cs: &Vec<Constraint>)
        requires
            old(self).wf(),
            parent.wf(),
            old(self).all_constraints@.len() == 0,
        ensures
            final(self).wf(),
            final(self).all_fields@ == parent.all_fields@,
            final(self).all_constraints@ == c_overlay_all(
                c_overlay_all(parent.all_constraints@, cs@),
                old(self).constraints@,
            ),
            final(self).named@ == old(self).named@,
            final(self).fields@ == old(self).fields@,
            final(self).constraints@ == old(self).constraints@,
    {
        let mut all: Vec<Constraint> = Vec::new();
        let mut i: usize = 0;
        while i < parent.all_constraints.len()
            invariant
                i <= parent.all_constraints@.len(),
                all@ == parent.all_constraints@.subrange(0, i as int),
            decreases parent.all_constraints@.len() - i,
        {
            all.push(parent.all_constraints[i]);
            proof {
                assert(all@ =~= parent.all_constraints@.subrange(0, i + 1));
            }
            i = i + 1;
        }
        proof {
            assert(all@ =~= parent.all_constraints@);
        }
        c_enter_all(&mut all, cs);
        c_enter_all(&mut all, &self.constraints);
        self.all_constraints = all;
        let mut fs: Vec<Field> = Vec::new();
        let mut j: usize = 0;
        while j < parent.all_fields.len()
            invariant
                j <= parent.all_fields@.len(),
                fs@ == parent.all_fields@.subrange(0, j as int),
            decreases parent.all_fields@.len() - j,
        {
            fs.push(parent.all_fields[j]);
            proof {
                assert(fs@ =~= parent.all_fields@.subrange(0, j + 1));
            }
            j = j + 1;
        }
        proof {
            assert(fs@ =~= parent.all_fields@);
        }
        self.all_fields = fs;
    }

    /// Enter the named fields into the local and inherited fields, with one
    /// warning per field that shadows a field already present.
    pub fn finalize(&mut self, diags: &mut Vec<Diagnostic>)
        requires
            old(self).wf(),
        ensures
            final(self).wf(),
            final(self).all_fields@ == overlay_all(old(self).all_fields@, old(self).fields@),
            final(diags)@ == old(diags)@ + clashes(old(self).all_fields@, old(self).fields@, None),
            final(self).named@ == old(self).named@,
            final(self).fields@ == old(self).fields@,
            final(self).constraints@ == old(self).constraints@,
            final(self).all_constraints@ == old(self).all_constraints@,
    {
        enter_all(&mut self.all_fields, &self.fields, None, diags);
    }

    /// Find the payload or body field, if any.
    pub fn get_payload_field(&self) -> (r: Option<Field>)
        ensures
            first_match(self.fields@, |f: Field| is_payload(f), r),
    {
        let mut i: usize = 0;
        while i < self.fields.len()
            invariant
                i <= self.fields@.len(),
                forall|j: int| 0 <= j < i ==> !is_payload(#[trigger] self.fields@[j]),
            decreases self.fields@.len() - i,
        {
            if is_payload_exec(&self.fields[i]) {
                return Some(self.fields[i]);
            }
            i = i + 1;
        }
        None
    }

    /// Lookup the size field for an array field.
    pub fn get_array_size_field(&self, id: u64) -> (r: Option<Field>)
        ensures
            first_match(self.fields@, |f: Field| sizes(f, id), r),
    {
        let mut i: usize = 0;
        while i < self.fields.len()
            invariant
                i <= self.fields@.len(),
                forall|j: int| 0 <= j < i ==> !sizes(#[trigger] self.fields@[j], id),
            decreases self.fields@.len() - i,
        {
            if sizes_exec(&self.fields[i], id) {
                return Some(self.fields[i]);
            }
            i = i + 1;
        }
        None
    }

    /// Find the size field of the payload or body field.
    pub fn get_payload_size_field(&self) -> (r: Option<Field>)
        ensures
            first_match(self.fields@, |f: Field| sizes_payload(f), r),
    {
        let mut i: usize = 0;
        while i < self.fields.len()
            invariant
                i <= self.fields@.len(),
                forall|j: int| 0 <= j < i ==> !sizes_payload(#[trigger] self.fields@[j]),
            decreases self.fields@.len() - i,
        {
            if sizes_payload_exec(&self.fields[i]) {
                return Some(self.fields[i]);
            }
            i = i + 1;
        }
        None
    }

    /// Lookup a field by name among the local named fields; the reserved
    /// payload and body identifiers fall back to the payload or body field.
    pub fn get_packet_field(&self, id: u64) -> (r: Option<Field>)
        ensures
            (exists|i: int| 0 <= i < self.named@.len() && named_as(#[trigger] self.named@[i], id))
                ==> first_match(self.named@, |f: Field| named_as(f, id), r),
            (forall|i: int| 0 <= i < self.named@.len() ==> !named_as(#[trigger] self.named@[i], id))
                ==> if id == PAYLOAD_ID || id == BODY_ID {
                first_match(self.fields@, |f: Field| is_payload(f), r)
            } else {
                r.is_none()
            },
    {
        let mut i: usize = 0;
        while i < self.named.len()
            invariant
                i <= self.named@.len(),
                forall|j: int| 0 <= j < i ==> !named_as(#[trigger] self.named@[j], id),
            decreases self.named@.len() - i,
        {
            if self.named[i].id == Some(id) {
                return Some(self.named[i]);
            }
            i = i + 1;
        }
        if id == PAYLOAD_ID || id == BODY_ID {
            self.get_payload_field()
        } else {
            None
        }
    }
}

/// Declaration `k` repeats the identifier of an earlier declaration.
#[verifier::opaque]
pub open spec fn redeclares(s: Seq<Decl>, k: int) -> bool {
    s[k].id.is_some() && exists|j: int| 0 <= j < k && #[trigger] s[j].id == s[k].id
}

/// Packets, structs and groups own a field list and a scope.
pub open spec fn is_composite(k: DeclKind) -> bool {
    k == DeclKind::Packet || k == DeclKind::Struct || k == DeclKind::Group
}

/// Field `f` includes the group `id`.
pub open spec fn includes(f: Field, id: u64) -> bool {
    f.desc matches FieldDesc::Group { group_id, .. } && group_id == id
}

/// Declaration `d` names `id` as parent or includes it as a group.
pub open spec fn refers_to(d: Decl, id: u64) -> bool {
    d.parent_id == Some(id) || exists|i: int|
        0 <= i < d.fields@.len() && includes(#[trigger] d.fields@[i], id)
}

/// Build the initial scope of a composite declaration from its local fields.
pub fn decl_scope(decl: &Decl) -> (r: Option<PacketScope>)
    ensures
        r.is_some() == is_composite(decl.kind),
        r matches Some(sc) ==> sc.wf() && sc.named@ == overlay_all(seq![], decl.fields@)
            && sc.fields@.len() == 0 && sc.constraints@.len() == 0 && sc.all_fields@.len() == 0
            && sc.all_constraints@.len() == 0,
{
    match decl.kind {
        DeclKind::Packet | DeclKind::Struct | DeclKind::Group => {
            let mut scope = PacketScope::empty();
            let mut i: usize = 0;
            while i < decl.fields.len()
                invariant
                    i <= decl.fields@.len(),
                    scope.wf(),
                    scope.fields@.len() == 0 && scope.constraints@.len() == 0
                        && scope.all_fields@.len() == 0 && scope.all_constraints@.len() == 0,
                    scope.named@ == overlay_all(seq![], decl.fields@.subrange(0, i as int)),
                decreases decl.fields@.len() - i,
            {
                proof {
                    assert(decl.fields@.subrange(0, i + 1).drop_last() =~= decl.fields@.subrange(0, i as int));
                }
                scope.insert(decl.fields[i]);
                i = i + 1;
            }
            proof {
                assert(decl.fields@.subrange(0, i as int) =~= decl.fields@);
            }
            Some(scope)
        },
        _ => None,
    }
}

fn refers_to_exec(d: &Decl, id: u64) -> (r: bool)
    ensures
        r == refers_to(*d, id),
{
    if d.parent_id == Some(id) {
        return true;
    }
    let mut i: usize = 0;
    while i < d.fields.len()
        invariant
            i <= d.fields@.len(),
            forall|j: int| 0 <= j < i ==> !includes(#[trigger] d.fields@[j], id),
        decreases d.fields@.len() - i,
    {
        match d.fields[i].desc {
            FieldDesc::Group { group_id, .. } => {
                if group_id == id {
                    return true;
                }
            },
            _ => {},
        }
        i = i + 1;
    }
    false
}

/// The first declaration before `k` with the identifier of declaration `k`.
#[verifier::opaque]
pub open spec fn first_occurrence(s: Seq<Decl>, k: int) -> int {
    choose|j: int| 0 <= j < k && s[j].id == s[k].id && forall|m: int| 0 <= m < j ==> #[trigger] s[m].id != s[k].id
}

/// The redeclaration errors of the first `n` declarations: one per
/// declaration that repeats an earlier identifier, in source order, located
/// at the repetition and pointing back to the first occurrence.
pub open spec fn redeclarations(s: Seq<Decl>, n: int) -> Seq<Diagnostic>
    decreases n,
{
    if n <= 0 {
        seq![]
    } else {
        redeclarations(s, n - 1) + if redeclares(s, n - 1) {
            seq![Diagnostic::Redeclared {
                id: s[n - 1].id.unwrap(),
                kind: s[n - 1].kind,
                loc: s[n - 1].loc,
                prev: s[first_occurrence(s, n - 1)].loc,
            }]
        } else {
            seq![]
        }
    }
}

proof fn lemma_first_occurrence(s: Seq<Decl>, k: int, j: int)
    requires
        0 <= j < k < s.len(),
        s[j].id == s[k].id,
        forall|m: int| 0 <= m < j ==> #[trigger] s[m].id != s[k].id,
    ensures
        first_occurrence(s, k) == j,
{
    reveal(first_occurrence);
    let q = first_occurrence(s, k);
    assert(0 <= q < k && s[q].id == s[k].id && forall|m: int| 0 <= m < q ==> #[trigger] s[m].id != s[k].id);
    if q < j {
        assert(s[q].id != s[k].id);
    } else if q > j {
        assert(s[j].id != s[k].id);
    }
}

proof fn lemma_redeclarations_step(s: Seq<Decl>, i: int)
    requires
        0 <= i < s.len(),
    ensures
        redeclarations(s, i + 1) == redeclarations(s, i) + if redeclares(s, i) {
            seq![Diagnostic::Redeclared {
                id: s[i].id.unwrap(),
                kind: s[i].kind,
                loc: s[i].loc,
                prev: s[first_occurrence(s, i)].loc,
            }]
        } else {
            seq![]
        },
{
}

/// The registry pass: the first declaration of each identifier, and the
/// redeclaration errors.
#[verifier::rlimit(100)]
fn register(decls: &Vec<Decl>, diagnostics: &mut Vec<Diagnostic>) -> (typedef: Vec<usize>)
    ensures
        final(diagnostics)@ == old(diagnostics)@ + redeclarations(decls@, decls@.len() as int),
        typedef@ == registry(decls@, decls@.len() as int),
        forall|a: int, b: int| 0 <= a < b < typedef@.len() ==> typedef@[a] < typedef@[b],
        forall|t: int|
            0 <= t < typedef@.len() ==> typedef@[t] < decls@.len() && decls@[typedef@[t] as int].id.is_some()
                && !redeclares(decls@, typedef@[t] as int),
        forall|k: int|
            0 <= k < decls@.len() && (#[trigger] decls@[k]).id.is_some() && !redeclares(decls@, k)
                ==> typedef@.contains(k as usize),
{
    let mut typedef: Vec<usize> = Vec::new();
    let mut i: usize = 0;
    while i < decls.len()
        invariant
            i <= decls@.len(),
            forall|t: int|
                0 <= t < typedef@.len() ==> typedef@[t] < i && decls@[typedef@[t] as int].id.is_some()
                    && !redeclares(decls@, typedef@[t] as int),
            forall|k: int|
                0 <= k < i && (#[trigger] decls@[k]).id.is_some() && !redeclares(decls@, k)
                    ==> typedef@.contains(k as usize),
            diagnostics@ == old(diagnostics)@ + redeclarations(decls@, i as int),
            typedef@ == registry(decls@, i as int),
            forall|a: int, b: int| 0 <= a < b < typedef@.len() ==> typedef@[a] < typedef@[b],
        decreases decls@.len() - i,
    {
        let ghost old_t = typedef@;
        proof {
            lemma_redeclarations_step(decls@, i as int);
        }
        match decls[i].id {
            Some(x) => {
                let mut j: usize = 0;
                let mut found = false;
                while j < i && !found
                    invariant
                        j <= i < decls@.len(),
                        decls@[i as int].id == Some(x),
                        found ==> j < i && decls@[j as int].id == Some(x),
                        forall|m: int| 0 <= m < j ==> #[trigger] decls@[m].id != Some(x),
                    decreases i - j + if found { 0int } else { 1int },
                {
                    if decls[j].id == Some(x) {
                        found = true;
                    } else {
                        j = j + 1;
                    }
                }
                if found {
                    proof {
                        reveal(redeclares);
                        assert(redeclares(decls@, i as int));
                        lemma_first_occurrence(decls@, i as int, j as int);
                    }
                    diagnostics.push(
                        Diagnostic::Redeclared { id: x, kind: decls[i].kind, loc: decls[i].loc, prev: decls[j].loc },
                    );
                    proof {
                        assert(diagnostics@ =~= old(diagnostics)@ + redeclarations(decls@, i + 1));
                    }
                } else {
                    assert(!redeclares(decls@, i as int)) by {
                        reveal(redeclares);
                    }
                    typedef.push(i);
                    proof {
                        assert(diagnostics@ =~= old(diagnostics)@ + redeclarations(decls@, i + 1));
                    }
                }
            },
            None => {
                proof {
                    reveal(redeclares);
                    assert(!redeclares(decls@, i as int));
                    assert(diagnostics@ =~= old(diagnostics)@ + redeclarations(decls@, i + 1));
                }
            },
        }
        proof {
            assert(typedef@ =~= registry(decls@, i + 1));
            assert forall|k: int|
                0 <= k < i + 1 && (#[trigger] decls@[k]).id.is_some() && !redeclares(decls@, k)
                    implies typedef@.contains(k as usize) by {
                if k == i {
                    assert(typedef@[typedef@.len() - 1] == i);
                } else {
                    assert(old_t.contains(k as usize));
                    let w = choose|w: int| 0 <= w < old_t.len() && old_t[w] == k as usize;
                    assert(typedef@[w] == k as usize);
                }
            }
        }
        i = i + 1;
    }
    typedef
}

proof fn lemma_redeclarations_nonempty(s: Seq<Decl>, n: int, k: int)
    requires
        0 <= k < n <= s.len(),
        redeclares(s, k),
    ensures
        redeclarations(s, n).len() > 0,
    decreases n,
{
    if k < n - 1 {
        lemma_redeclarations_nonempty(s, n - 1, k);
    }
}

/// `b` begins with `a`.
pub open spec fn extends(a: Seq<Diagnostic>, b: Seq<Diagnostic>) -> bool {
    a.len() <= b.len() && forall|j: int| 0 <= j < a.len() ==> #[trigger] b[j] == a[j]
}

/// No field of `s` is a group field: every group has been inlined.
pub open spec fn flat(s: Seq<Field>) -> bool {
    forall|i: int| 0 <= i < s.len() ==> !((#[trigger] s[i]).desc is Group)
}

/// The resolution state of a declaration.
#[derive(Clone, Copy, Debug, PartialEq, Eq, Structural)]
pub enum Mark {
    Unvisited,
    InProgress,
    Done,
}

/// The number of declarations not yet visited.
pub open spec fn unvisited(m: Seq<Mark>) -> nat
    decreases m.len(),
{
    if m.len() == 0 {
        0
    } else {
        unvisited(m.drop_last()) + if m.last() == Mark::Unvisited { 1nat } else { 0nat }
    }
}

/// Marks only move away from `Unvisited`, and `InProgress` marks stay as they are.
pub open spec fn marks_advance(a: Seq<Mark>, b: Seq<Mark>) -> bool {
    a.len() == b.len() && forall|i: int|
        0 <= i < a.len() ==> (b[i] == Mark::Unvisited ==> a[i] == Mark::Unvisited) && ((#[trigger] b[i]
            == Mark::InProgress) == (a[i] == Mark::InProgress)) && (a[i] == Mark::Done ==> b[i]
            == Mark::Done)
}

proof fn lemma_unvisited_monotone(a: Seq<Mark>, b: Seq<Mark>)
    requires
        a.len() == b.len(),
        forall|i: int| 0 <= i < a.len() && #[trigger] b[i] == Mark::Unvisited ==> a[i] == Mark::Unvisited,
    ensures
        unvisited(b) <= unvisited(a),
    decreases a.len(),
{
    if a.len() > 0 {
        let (a0, b0) = (a.drop_last(), b.drop_last());
        assert forall|i: int| 0 <= i < a0.len() && #[trigger] b0[i] == Mark::Unvisited implies a0[i] == Mark::Unvisited by {
            assert(b[i] == b0[i]);
        }
        lemma_unvisited_monotone(a0, b0);
        assert(b.last() == b[b.len() - 1]);
    }
}

proof fn lemma_unvisited_mark(a: Seq<Mark>, k: int, m: Mark)
    requires
        0 <= k < a.len(),
        a[k] == Mark::Unvisited,
        m != Mark::Unvisited,
    ensures
        unvisited(a.update(k, m)) < unvisited(a),
    decreases a.len(),
{
    let b = a.update(k, m);
    if k == a.len() - 1 {
        assert(b.drop_last() =~= a.drop_last());
    } else {
        assert(b.drop_last() =~= a.drop_last().update(k, m));
        lemma_unvisited_mark(a.drop_last(), k, m);
    }
}

/// The contents of a scope.
pub struct ScopeView {
    pub named: Seq<Field>,
    pub fields: Seq<Field>,
    pub constraints: Seq<Constraint>,
    pub all_fields: Seq<Field>,
    pub all_constraints: Seq<Constraint>,
}

impl PacketScope {
    pub open spec fn view(&self) -> ScopeView {
        ScopeView {
            named: self.named@,
            fields: self.fields@,
            constraints: self.constraints@,
            all_fields: self.all_fields@,
            all_constraints: self.all_constraints@,
        }
    }
}

pub open spec fn opt_view(o: Option<PacketScope>) -> Option<ScopeView> {
    match o {
        Some(sc) => Some(sc.view()),
        None => None,
    }
}

pub open spec fn scopes_view(s: Seq<Option<PacketScope>>) -> Seq<Option<ScopeView>> {
    s.map_values(|o: Option<PacketScope>| opt_view(o))
}

/// Every group field of `d` names one of its constraint lists.
pub open spec fn decl_wf(d: Decl) -> bool {
    forall|j: int|
        0 <= j < d.fields@.len() ==> ((#[trigger] d.fields@[j]).desc matches FieldDesc::Group {
            constraints,
            ..
        } ==> constraints < d.group_constraints@.len())
}

/// The state of the resolution walk: a mark and a scope per declaration,
/// the resolution order, and the diagnostics so far.
pub struct ResolveState {
    pub marks: Seq<Mark>,
    pub scopes: Seq<Option<ScopeView>>,
    pub order: Seq<usize>,
    pub diags: Seq<Diagnostic>,
}

pub open spec fn report(st: ResolveState, d: Diagnostic) -> ResolveState {
    ResolveState { marks: st.marks, scopes: st.scopes, order: st.order, diags: st.diags.push(d) }
}

/// The scope of a composite declaration before resolution: its named fields.
pub open spec fn initial_view(d: Decl) -> ScopeView {
    ScopeView {
        named: overlay_all(seq![], d.fields@),
        fields: seq![],
        constraints: seq![],
        all_fields: seq![],
        all_constraints: seq![],
    }
}

pub open spec fn inline_view(l: ScopeView, g: ScopeView, cs: Seq<Constraint>) -> ScopeView {
    ScopeView {
        named: overlay_all(l.named, g.named),
        fields: l.fields + g.fields,
        constraints: c_overlay_all(c_overlay_all(l.constraints, g.constraints), cs),
        all_fields: l.all_fields,
        all_constraints: l.all_constraints,
    }
}

pub open spec fn inherit_view(l: ScopeView, p: ScopeView, cs: Seq<Constraint>) -> ScopeView {
    ScopeView {
        named: l.named,
        fields: l.fields,
        constraints: l.constraints,
        all_fields: p.all_fields,
        all_constraints: c_overlay_all(c_overlay_all(p.all_constraints, cs), l.constraints),
    }
}

pub open spec fn finalize_view(l: ScopeView) -> ScopeView {
    ScopeView {
        named: l.named,
        fields: l.fields,
        constraints: l.constraints,
        all_fields: overlay_all(l.all_fields, l.fields),
        all_constraints: l.all_constraints,
    }
}

/// The declaration registered under `id`, searching the registry from entry `i`.
pub open spec fn lookup_from(dv: Seq<Decl>, tv: Seq<usize>, id: u64, i: int) -> Option<usize>
    decreases tv.len() - i,
{
    if i < 0 || i >= tv.len() {
        None
    } else if dv[tv[i] as int].id == Some(id) {
        Some(tv[i])
    } else {
        lookup_from(dv, tv, id, i + 1)
    }
}

/// Resolving declaration `k` from state `st`: the new state and whether
/// `k` ends resolved. A declaration in progress is a cycle: it is reported
/// and not followed.
pub open spec fn resolve_spec(dv: Seq<Decl>, tv: Seq<usize>, st: ResolveState, k: int, fuel: nat) -> (
    ResolveState,
    bool,
)
    decreases fuel, dv[k].fields@.len() + 2,
{
    if k < 0 || k >= dv.len() || k >= st.marks.len() {
        (st, false)
    } else if st.marks[k] == Mark::Done {
        (st, true)
    } else if st.marks[k] == Mark::InProgress {
        (report(st, Diagnostic::Recursive { id: dv[k].id.unwrap_or(0), kind: dv[k].kind, loc: dv[k].loc }), false)
    } else if !is_composite(dv[k].kind) || fuel == 0 {
        (st, false)
    } else {
        let st1 = ResolveState {
            marks: st.marks.update(k, Mark::InProgress),
            scopes: st.scopes,
            order: st.order,
            diags: st.diags,
        };
        let w = fields_spec(dv, tv, k, 0, st1, initial_view(dv[k]), fuel);
        let p = parent_spec(dv, tv, k, w.0, w.1, fuel);
        (
            ResolveState {
                marks: p.0.marks.update(k, Mark::Done),
                scopes: p.0.scopes.update(k, Some(finalize_view(p.1))),
                order: p.0.order.push(k as usize),
                diags: p.0.diags + clashes(p.1.all_fields, p.1.fields, None),
            },
            true,
        )
    }
}

/// Walking the fields of declaration `k` from field `i` on: group fields
/// are resolved and inlined, typedef fields are kept and their structs
/// resolved, other fields are kept.
pub open spec fn fields_spec(
    dv: Seq<Decl>,
    tv: Seq<usize>,
    k: int,
    i: int,
    st: ResolveState,
    l: ScopeView,
    fuel: nat,
) -> (ResolveState, ScopeView)
    decreases fuel, dv[k].fields@.len() - i,
{
    if fuel == 0 || i < 0 || i >= dv[k].fields@.len() {
        (st, l)
    } else {
        let w = field_step(dv, tv, k, dv[k].fields@[i], st, l, fuel);
        fields_spec(dv, tv, k, i + 1, w.0, w.1, fuel)
    }
}

pub open spec fn field_step(
    dv: Seq<Decl>,
    tv: Seq<usize>,
    k: int,
    f: Field,
    st: ResolveState,
    l: ScopeView,
    fuel: nat,
) -> (ResolveState, ScopeView)
    decreases fuel, 0int,
{
    if fuel == 0 {
        (st, l)
    } else {
        match f.desc {
            FieldDesc::Group { group_id, constraints } => match lookup_from(dv, tv, group_id, 0) {
                None => (report(st, Diagnostic::UndeclaredGroup { id: group_id, loc: f.loc }), l),
                Some(g) => if dv[g as int].kind == DeclKind::Group {
                    let r = resolve_spec(dv, tv, st, g as int, (fuel - 1) as nat);
                    if r.1 && r.0.scopes[g as int] is Some {
                        let gs = r.0.scopes[g as int].unwrap();
                        (
                            ResolveState {
                                marks: r.0.marks,
                                scopes: r.0.scopes,
                                order: r.0.order,
                                diags: r.0.diags + clashes(l.named, gs.named, Some(f.loc)),
                            },
                            inline_view(l, gs, dv[k].group_constraints@[constraints as int]@),
                        )
                    } else {
                        (r.0, l)
                    }
                } else {
                    (report(st, Diagnostic::InvalidGroup { id: group_id, loc: f.loc }), l)
                },
            },
            FieldDesc::Typedef { type_id } => {
                let l1 = ScopeView {
                    named: l.named,
                    fields: l.fields.push(f),
                    constraints: l.constraints,
                    all_fields: l.all_fields,
                    all_constraints: l.all_constraints,
                };
                match lookup_from(dv, tv, type_id, 0) {
                    None => (report(st, Diagnostic::UndeclaredTypedef { id: type_id, loc: f.loc }), l1),
                    Some(t) => if dv[t as int].kind == DeclKind::Struct {
                        (resolve_spec(dv, tv, st, t as int, (fuel - 1) as nat).0, l1)
                    } else {
                        (st, l1)
                    },
                }
            },
            _ => (
                st,
                ScopeView {
                    named: l.named,
                    fields: l.fields.push(f),
                    constraints: l.constraints,
                    all_fields: l.all_fields,
                    all_constraints: l.all_constraints,
                },
            ),
        }
    }
}

/// Resolving the parent of a Packet or Struct `k`, and inheriting from it.
pub open spec fn parent_spec(
    dv: Seq<Decl>,
    tv: Seq<usize>,
    k: int,
    st: ResolveState,
    l: ScopeView,
    fuel: nat,
) -> (ResolveState, ScopeView)
    decreases fuel, 1int,
{
    if fuel == 0 || !(dv[k].kind == DeclKind::Packet || dv[k].kind == DeclKind::Struct) {
        (st, l)
    } else {
        match dv[k].parent_id {
            None => (st, l),
            Some(p) => match lookup_from(dv, tv, p, 0) {
                None => (report(st, Diagnostic::UndeclaredParent { id: p, kind: dv[k].kind, loc: dv[k].loc }), l),
                Some(t) => if dv[t as int].kind != dv[k].kind {
                    (report(st, Diagnostic::InvalidParent { id: p, kind: dv[k].kind, loc: dv[k].loc }), l)
                } else {
                    let r = resolve_spec(dv, tv, st, t as int, (fuel - 1) as nat);
                    if r.1 && r.0.scopes[t as int] is Some {
                        (r.0, inherit_view(l, r.0.scopes[t as int].unwrap(), dv[k].constraints@))
                    } else {
                        (r.0, l)
                    }
                },
            },
        }
    }
}

/// Resolving the registered declarations from registry entry `t` on.
pub open spec fn resolve_all_spec(dv: Seq<Decl>, tv: Seq<usize>, t: int, st: ResolveState) -> ResolveState
    decreases tv.len() - t,
{
    if t < 0 || t >= tv.len() {
        st
    } else {
        resolve_all_spec(dv, tv, t + 1, resolve_spec(dv, tv, st, tv[t] as int, unvisited(st.marks)).0)
    }
}

/// The registry: the first declaration of each identifier, in source order.
pub open spec fn registry(dv: Seq<Decl>, n: int) -> Seq<usize>
    decreases n,
{
    if n <= 0 {
        seq![]
    } else {
        registry(dv, n - 1) + if dv[n - 1].id.is_some() && !redeclares(dv, n - 1) {
            seq![(n - 1) as usize]
        } else {
            seq![]
        }
    }
}

/// The outcome of linting the declarations `dv`: the redeclaration errors,
/// then the resolution of every registered declaration.
pub open spec fn lint(dv: Seq<Decl>) -> ResolveState {
    resolve_all_spec(
        dv,
        registry(dv, dv.len() as int),
        0,
        ResolveState {
            marks: Seq::new(dv.len(), |i: int| Mark::Unvisited),
            scopes: Seq::new(dv.len(), |i: int| None),
            order: seq![],
            diags: redeclarations(dv, dv.len() as int),
        },
    )
}

/// Everything that linting `dv` reports, in order.
pub open spec fn lint_diagnostics(dv: Seq<Decl>) -> Seq<Diagnostic> {
    lint(dv).diags
}

/// The working state of the resolver.
struct Context {
    marks: Vec<Mark>,
    scopes: Vec<Option<PacketScope>>,
    order: Vec<usize>,
}

impl Context {
    spec fn state(&self, diags: Seq<Diagnostic>) -> ResolveState {
        ResolveState { marks: self.marks@, scopes: scopes_view(self.scopes@), order: self.order@, diags }
    }

    spec fn wf(&self, decls: Seq<Decl>) -> bool {
        let n = decls.len();
        &&& forall|i: int|
            0 <= i < n && #[trigger] self.scopes@[i] is Some ==> is_composite(decls[i].kind)
                && decls[i].id.is_some()
        &&& self.marks@.len() == n && self.scopes@.len() == n && forall|i: int|
            0 <= i < n && #[trigger] self.marks@[i] == Mark::Done ==> (self.scopes@[i] matches Some(sc) && sc.wf() && flat(sc.fields@))
    }
}

/// The first declaration registered under `id`.
fn lookup(decls: &Vec<Decl>, typedef: &Vec<usize>, id: u64) -> (r: Option<usize>)
    requires
        forall|t: int| 0 <= t < typedef@.len() ==> typedef@[t] < decls@.len(),
    ensures
        r == lookup_from(decls@, typedef@, id, 0),
        r matches Some(k) ==> k < decls@.len() && decls@[k as int].id == Some(id),
        r is None ==> forall|t: int|
            0 <= t < typedef@.len() ==> decls@[#[trigger] typedef@[t] as int].id != Some(id),
{
    let mut i: usize = 0;
    while i < typedef.len()
        invariant
            i <= typedef@.len(),
            forall|t: int| 0 <= t < typedef@.len() ==> typedef@[t] < decls@.len(),
            forall|t: int| 0 <= t < i ==> decls@[#[trigger] typedef@[t] as int].id != Some(id),
            lookup_from(decls@, typedef@, id, i as int) == lookup_from(decls@, typedef@, id, 0),
        decreases typedef@.len() - i,
    {
        let k = typedef[i];
        if decls[k].id == Some(id) {
            return Some(k);
        }
        i = i + 1;
    }
    None
}

/// Resolve declaration `k`: inline its groups, follow its typedef fields,
/// inherit from its parent and check shadowing. A declaration reached again
/// while in progress is a cycle: it is reported and not followed. Every
/// diagnostic is appended to `diags`.
#[verifier::rlimit(80)]
fn resolve(
    decls: &Vec<Decl>,
    typedef: &Vec<usize>,
    ctx: &mut Context,
    k: usize,
    diags: &mut Vec<Diagnostic>,
    Ghost(budget): Ghost<nat>,
) -> (done: bool)
    requires
        unvisited(old(ctx).marks@) <= budget,
        old(ctx).wf(decls@),
        decls@[k as int].id.is_some(),
        forall|j: int| 0 <= j < decls@.len() ==> decl_wf(#[trigger] decls@[j]),
        k < decls@.len(),
        forall|t: int| 0 <= t < typedef@.len() ==> typedef@[t] < decls@.len(),
    ensures
        final(ctx).wf(decls@),
        (final(ctx).state(final(diags)@), done) == resolve_spec(
            decls@,
            typedef@,
            old(ctx).state(old(diags)@),
            k as int,
            budget,
        ),
        marks_advance(old(ctx).marks@, final(ctx).marks@),
        unvisited(final(ctx).marks@) <= unvisited(old(ctx).marks@),
        extends(old(diags)@, final(diags)@),
        done ==> final(ctx).marks@[k as int] == Mark::Done,
        old(ctx).marks@[k as int] == Mark::Unvisited && is_composite(decls@[k as int].kind) ==> done,
        old(ctx).marks@[k as int] == Mark::InProgress ==> !done && final(diags)@ == old(diags)@.push(
            Diagnostic::Recursive {
                id: decls@[k as int].id.unwrap_or(0),
                kind: decls@[k as int].kind,
                loc: decls@[k as int].loc,
            },
        ),
    decreases budget,
{
    let ghost m0 = ctx.marks@;
    let ghost d0 = diags@;
    let decl = &decls[k];
    match ctx.marks[k] {
        Mark::Done => {
            return true;
        },
        Mark::InProgress => {
            diags.push(Diagnostic::Recursive { id: decl.id.unwrap_or(0), kind: decl.kind, loc: decl.loc });
            return false;
        },
        Mark::Unvisited => {},
    }
    let lscope0 = decl_scope(decl);
    let mut lscope = match lscope0 {
        Some(sc) => sc,
        None => {
            return false;
        },
    };
    let ghost s0 = ctx.state(diags@);
    ctx.marks.set(k, Mark::InProgress);
    proof {
        lemma_unvisited_mark(m0, k as int, Mark::InProgress);
    }
    let ghost m1 = ctx.marks@;
    let ghost st1 = ctx.state(diags@);
    let ghost w = fields_spec(decls@, typedef@, k as int, 0, st1, initial_view(*decl), budget);
    assert(lscope.fields@ =~= Seq::<Field>::empty());
    assert(lscope.all_fields@ =~= Seq::<Field>::empty());
    assert(lscope.constraints@ =~= Seq::<Constraint>::empty());
    assert(lscope.all_constraints@ =~= Seq::<Constraint>::empty());
    assert(lscope.view() == initial_view(*decl));
    assert(st1 == ResolveState { marks: s0.marks.update(k as int, Mark::InProgress), scopes: s0.scopes, order: s0.order, diags: s0.diags });
    assert(decl_wf(decls@[k as int]));
    let mut i: usize = 0;
    while i < decl.fields.len()
        invariant
            i <= decl.fields@.len(),
            ctx.wf(decls@),
            lscope.wf(),
            flat(lscope.fields@),
            lscope.all_constraints@.len() == 0,
            marks_advance(m1, ctx.marks@),
            unvisited(ctx.marks@) < unvisited(m0),
            unvisited(m0) <= budget,
            extends(d0, diags@),
            forall|t: int| 0 <= t < typedef@.len() ==> typedef@[t] < decls@.len(),
            decls@[k as int] == *decl,
            k < decls@.len(),
            m1[k as int] == Mark::InProgress,
            budget > 0,
            decl_wf(*decl),
            forall|j: int| 0 <= j < decls@.len() ==> decl_wf(#[trigger] decls@[j]),
            fields_spec(decls@, typedef@, k as int, i as int, ctx.state(diags@), lscope.view(), budget) == w,
        decreases decl.fields@.len() - i,
    {
        let f = decl.fields[i];
        let ghost S = ctx.state(diags@);
        let ghost L = lscope.view();
        assert(f == decl.fields@[i as int]);
        let ghost mb = ctx.marks@;
        let ghost db = diags@;
        match f.desc {
            FieldDesc::Group { group_id, constraints } => {
                match lookup(decls, typedef, group_id) {
                    None => {
                        diags.push(Diagnostic::UndeclaredGroup { id: group_id, loc: f.loc });
                    },
                    Some(g) => {
                        if decls[g].kind == DeclKind::Group {
                            let ok = resolve(decls, typedef, ctx, g, diags, Ghost((budget - 1) as nat));
                            if ok {
                                let cs = &decl.group_constraints[constraints];
                                match &ctx.scopes[g] {
                                    Some(gs) => {
                                        assert(ctx.state(diags@).scopes[g as int] == Some(gs.view()));
                                        let ghost f0 = lscope.fields@;
                                        lscope.inline(gs, &f, cs, diags);
                                        assert(flat(lscope.fields@)) by {
                                            assert forall|j: int| 0 <= j < lscope.fields@.len() implies !((
                                            #[trigger] lscope.fields@[j]).desc is Group) by {
                                                if j >= f0.len() {
                                                    assert(lscope.fields@[j] == gs.fields@[j - f0.len()]);
                                                }
                                            }
                                        }
                                    },
                                    None => {},
                                }
                            }
                        } else {
                            diags.push(Diagnostic::InvalidGroup { id: group_id, loc: f.loc });
                        }
                    },
                }
            },
            FieldDesc::Typedef { type_id } => {
                lscope.fields.push(f);
                match lookup(decls, typedef, type_id) {
                    None => {
                        diags.push(Diagnostic::UndeclaredTypedef { id: type_id, loc: f.loc });
                    },
                    Some(t) => {
                        if decls[t].kind == DeclKind::Struct {
                            resolve(decls, typedef, ctx, t, diags, Ghost((budget - 1) as nat));
                        }
                    },
                }
            },
            _ => {
                lscope.fields.push(f);
            },
        }
        assert((ctx.state(diags@), lscope.view()) == field_step(decls@, typedef@, k as int, f, S, L, budget));
        i = i + 1;
    }
    let ghost S2 = ctx.state(diags@);
    let ghost L2 = lscope.view();
    assert((S2, L2) == w);
    if decl.kind == DeclKind::Packet || decl.kind == DeclKind::Struct {
        match decl.parent_id {
            None => {},
            Some(p) => {
                let ghost db = diags@;
                match lookup(decls, typedef, p) {
                    None => {
                        diags.push(Diagnostic::UndeclaredParent { id: p, kind: decl.kind, loc: decl.loc });
                    },
                    Some(t) => {
                        if decls[t].kind != decl.kind {
                            diags.push(Diagnostic::InvalidParent { id: p, kind: decl.kind, loc: decl.loc });
                        } else {
                            let ok = resolve(decls, typedef, ctx, t, diags, Ghost((budget - 1) as nat));
                            if ok {
                                match &ctx.scopes[t] {
                                    Some(ps) => {
                                        assert(ctx.state(diags@).scopes[t as int] == Some(ps.view()));
                                        lscope.inherit(ps, &decl.constraints);
                                    },
                                    None => {},
                                }
                            }
                        }
                    },
                }
            },
        }
    }
    assert((ctx.state(diags@), lscope.view()) == parent_spec(decls@, typedef@, k as int, S2, L2, budget));
    let ghost S3 = ctx.state(diags@);
    let ghost L3 = lscope.view();
    lscope.finalize(diags);
    ctx.order.push(k);
    let ghost m2 = ctx.marks@;
    ctx.marks.set(k, Mark::Done);
    ctx.scopes.set(k, Some(lscope));
    proof {
        lemma_unvisited_monotone(m2, ctx.marks@);
        assert(scopes_view(ctx.scopes@) =~= S3.scopes.update(k as int, Some(finalize_view(L3))));
        assert(lscope.view() == finalize_view(L3));
    }
    true
}

/// Resolve every registered declaration, returning the resolved scopes by
/// declaration index and the resolution order.
fn resolve_all(decls: &Vec<Decl>, typedef: &Vec<usize>, diags: &mut Vec<Diagnostic>) -> (r: (
    Vec<Option<PacketScope>>,
    Vec<usize>,
))
    requires
        forall|j: int| 0 <= j < decls@.len() ==> decl_wf(#[trigger] decls@[j]),
        forall|t: int| 0 <= t < typedef@.len() ==> typedef@[t] < decls@.len(),
        forall|t: int| 0 <= t < typedef@.len() ==> decls@[#[trigger] typedef@[t] as int].id.is_some(),
    ensures
        extends(old(diags)@, final(diags)@),
        ({
            let res = resolve_all_spec(
                decls@,
                typedef@,
                0,
                ResolveState {
                    marks: Seq::new(decls@.len(), |i: int| Mark::Unvisited),
                    scopes: Seq::new(decls@.len(), |i: int| None),
                    order: seq![],
                    diags: old(diags)@,
                },
            );
            scopes_view(r.0@) == res.scopes && r.1@ == res.order && final(diags)@ == res.diags
        }),
        r.0@.len() == decls@.len(),
        forall|j: int|
            0 <= j < decls@.len() && #[trigger] r.0@[j] is Some ==> is_composite(decls@[j].kind)
                && decls@[j].id.is_some(),
        forall|t: int|
            0 <= t < typedef@.len() && is_composite(decls@[#[trigger] typedef@[t] as int].kind)
                ==> (r.0@[typedef@[t] as int] matches Some(sc) && flat(sc.fields@)),
{
    let mut ctx = Context { marks: Vec::new(), scopes: Vec::new(), order: Vec::new() };
    let mut i: usize = 0;
    while i < decls.len()
        invariant
            i <= decls@.len(),
            ctx.marks@.len() == i && ctx.scopes@.len() == i,
            forall|j: int| 0 <= j < i ==> #[trigger] ctx.marks@[j] == Mark::Unvisited,
            forall|j: int| 0 <= j < i ==> #[trigger] ctx.scopes@[j] is None,
            ctx.order@.len() == 0,
        decreases decls@.len() - i,
    {
        ctx.marks.push(Mark::Unvisited);
        ctx.scopes.push(None);
        i = i + 1;
    }
    let ghost d0 = diags@;
    let ghost init = ResolveState {
        marks: Seq::new(decls@.len(), |i: int| Mark::Unvisited),
        scopes: Seq::new(decls@.len(), |i: int| None),
        order: seq![],
        diags: d0,
    };
    let ghost res = resolve_all_spec(decls@, typedef@, 0, init);
    assert(ctx.marks@ =~= init.marks);
    assert(scopes_view(ctx.scopes@) =~= init.scopes);
    assert(ctx.order@ =~= init.order);
    let mut t: usize = 0;
    while t < typedef.len()
        invariant
            t <= typedef@.len(),
            ctx.wf(decls@),
            forall|t: int| 0 <= t < typedef@.len() ==> typedef@[t] < decls@.len(),
            forall|t: int| 0 <= t < typedef@.len() ==> decls@[#[trigger] typedef@[t] as int].id.is_some(),
            forall|j: int| 0 <= j < decls@.len() ==> #[trigger] ctx.marks@[j] != Mark::InProgress,
            forall|u: int|
                0 <= u < t && is_composite(decls@[#[trigger] typedef@[u] as int].kind)
                    ==> ctx.marks@[typedef@[u] as int] == Mark::Done,
            extends(d0, diags@),
            forall|j: int| 0 <= j < decls@.len() ==> decl_wf(#[trigger] decls@[j]),
            resolve_all_spec(decls@, typedef@, t as int, ctx.state(diags@)) == res,
        decreases typedef@.len() - t,
    {
        let ghost mb = ctx.marks@;
        let ghost db = diags@;
        let ghost budget = unvisited(ctx.marks@);
        resolve(decls, typedef, &mut ctx, typedef[t], diags, Ghost(budget));
        proof {
            assert forall|j: int| 0 <= j < decls@.len() implies #[trigger] ctx.marks@[j] != Mark::InProgress by {
                assert(mb[j] != Mark::InProgress);
            }
            assert forall|u: int|
                0 <= u < t + 1 && is_composite(decls@[#[trigger] typedef@[u] as int].kind)
                    implies ctx.marks@[typedef@[u] as int] == Mark::Done by {
                if u < t {
                    assert(mb[typedef@[u] as int] == Mark::Done);
                }
            }
        }
        t = t + 1;
    }
    (ctx.scopes, ctx.order)
}

impl Scope {
    /// Gather the top-level declarations and resolve them. Every repeated
    /// identifier is reported once per extra occurrence, against its first
    /// occurrence, which alone is kept. The build succeeds exactly when
    /// neither the registry pass nor the resolution raises a diagnostic,
    /// warnings included.
    #[verifier::rlimit(80)]
    pub fn new(file: File) -> (r: Result<Scope, LintDiagnostics>)
        requires
            forall|j: int|
                0 <= j < file.declarations@.len() ==> decl_wf(#[trigger] file.declarations@[j]),
        ensures
            r is Ok <==> lint_diagnostics(file.declarations@).len() == 0,
            r matches Err(d) ==> d.diagnostics@ == lint_diagnostics(file.declarations@),
            r matches Ok(sc) ==> (forall|a: int, b: int|
                0 <= a < b < sc.typedef@.len() ==> sc.typedef@[a] < sc.typedef@[b]) && (forall|t: int|
                0 <= t < sc.typedef@.len() ==> sc.typedef@[t] < sc.declarations@.len()
                    && sc.declarations@[sc.typedef@[t] as int].id.is_some()),
            r matches Ok(sc) ==> forall|k: int|
                0 <= k < sc.scopes@.len() ==> ((#[trigger] sc.scopes@[k] is Some) <==> (is_composite(
                    sc.declarations@[k].kind,
                ) && sc.declarations@[k].id.is_some())),
            r matches Ok(sc) ==> sc.typedef@ == registry(file.declarations@, file.declarations@.len() as int)
                && scopes_view(sc.scopes@) == lint(file.declarations@).scopes && sc.order@ == lint(
                file.declarations@,
            ).order,
            (exists|k: int| 0 <= k < file.declarations@.len() && redeclares(file.declarations@, k))
                ==> r is Err,
            r matches Err(d) ==> d.diagnostics@.len() > 0 && d.diagnostics@.subrange(
                0,
                redeclarations(file.declarations@, file.declarations@.len() as int).len() as int,
            ) == redeclarations(file.declarations@, file.declarations@.len() as int),
            r matches Ok(sc) ==> sc.declarations@ == file.declarations@ && sc.scopes@.len()
                == sc.declarations@.len() && (forall|k: int|
                0 <= k < file.declarations@.len() ==> !redeclares(file.declarations@, k)) && (forall|
                k: int,
            |
                0 <= k < file.declarations@.len() && (#[trigger] file.declarations@[k]).id.is_some()
                    ==> sc.typedef@.contains(k as usize)) && (forall|k: int|
                0 <= k < sc.declarations@.len() && (#[trigger] sc.declarations@[k]).id.is_some()
                    && is_composite(sc.declarations@[k].kind) ==> (sc.scopes@[k] matches Some(p) && flat(
                    p.fields@,
                ))),
    {
        let decls = file.declarations;
        let mut diagnostics: Vec<Diagnostic> = Vec::new();
        let n = decls.len();
        let typedef = register(&decls, &mut diagnostics);
        assert(diagnostics@ =~= redeclarations(decls@, decls@.len() as int));
        proof {
            if exists|k: int| 0 <= k < decls@.len() && redeclares(decls@, k) {
                let k = choose|k: int| 0 <= k < decls@.len() && redeclares(decls@, k);
                lemma_redeclarations_nonempty(decls@, decls@.len() as int, k);
            }
        }
        let ghost reg = diagnostics@;
        let (scopes, order) = resolve_all(&decls, &typedef, &mut diagnostics);
        if diagnostics.len() > 0 {
            return Err(LintDiagnostics { diagnostics });
        }
        proof {
            assert forall|k: int|
                0 <= k < decls@.len() && (#[trigger] decls@[k]).id.is_some() && is_composite(decls@[k].kind)
                    implies (scopes@[k] matches Some(p) && flat(p.fields@)) by {
                assert(!redeclares(decls@, k));
                assert(typedef@.contains(k as usize));
                let t = choose|t: int| 0 <= t < typedef@.len() && typedef@[t] == k as usize;
                assert(is_composite(decls@[typedef@[t] as int].kind));
            }
        }
        Ok(Scope { declarations: decls, typedef, scopes, order })
    }

    /// The declarations that name `id` as parent or include it as a group.
    pub fn iter_children(&self, id: u64) -> (r: Vec<usize>)
        ensures
            forall|t: int| 0 <= t < r@.len() ==> r@[t] < self.declarations@.len()
                && refers_to(self.declarations@[r@[t] as int], id),
            forall|a: int, b: int| 0 <= a < b < r@.len() ==> r@[a] < r@[b],
            forall|k: int|
                0 <= k < self.declarations@.len() && refers_to(#[trigger] self.declarations@[k], id)
                    ==> r@.contains(k as usize),
    {
        let mut r: Vec<usize> = Vec::new();
        let mut i: usize = 0;
        while i < self.declarations.len()
            invariant
                i <= self.declarations@.len(),
                forall|t: int| 0 <= t < r@.len() ==> r@[t] < i
                    && refers_to(self.declarations@[r@[t] as int], id),
                forall|a: int, b: int| 0 <= a < b < r@.len() ==> r@[a] < r@[b],
                forall|k: int|
                    0 <= k < i && refers_to(#[trigger] self.declarations@[k], id)
                        ==> r@.contains(k as usize),
            decreases self.declarations@.len() - i,
        {
            let ghost old_r = r@;
            if refers_to_exec(&self.declarations[i], id) {
                r.push(i);
                assert(r@[r@.len() - 1] == i);
            }
            proof {
                assert forall|k: int|
                    0 <= k < i + 1 && refers_to(#[trigger] self.declarations@[k], id)
                        implies r@.contains(k as usize) by {
                    if k < i {
                        assert(old_r.contains(k as usize));
                        let w = choose|w: int| 0 <= w < old_r.len() && old_r[w] == k as usize;
                        assert(r@[w] == k as usize);
                    } else {
                        assert(r@[r@.len() - 1] == i);
                    }
                }
            }
            i = i + 1;
        }
        r
    }

    /// Some declaration names `id` as parent or includes it as a group.
    pub fn has_children(&self, id: u64) -> (r: bool)
        ensures
            r == exists|k: int| 0 <= k < self.declarations@.len() && refers_to(#[trigger] self.declarations@[k], id),
    {
        let c = self.iter_children(id);
        if c.len() > 0 {
            assert(refers_to(self.declarations@[c@[0] as int], id));
            true
        } else {
            assert forall|k: int| 0 <= k < self.declarations@.len() implies !refers_to(#[trigger] self.declarations@[k], id) by {
                if refers_to(self.declarations@[k], id) {
                    assert(c@.contains(k as usize));
                }
            }
            false
        }
    }
}

/// When no declaration repeats an earlier identifier, the identifiers of the
/// declarations are pairwise distinct, so the namespace holds no duplicates.
pub proof fn lemma_registry_names_unique(s: Seq<Decl>)
    requires
        forall|k: int| 0 <= k < s.len() ==> !redeclares(s, k),
    ensures
        forall|i: int, j: int|
            0 <= i < j < s.len() && (#[trigger] s[i]).id.is_some() ==> s[i].id != (#[trigger] s[j]).id,
{
    assert forall|i: int, j: int|
        0 <= i < j < s.len() && (#[trigger] s[i]).id.is_some() implies s[i].id != (#[trigger] s[j]).id by {
        if s[i].id == s[j].id {
            reveal(redeclares);
            assert(redeclares(s, j));
        }
    }
}

/// Group inlining is associative in its fields: inlining `g` and then `h`
/// into `l` yields the same field sequence as inlining into `l` the group `g`
/// with `h` already inlined into it.
pub proof fn lemma_inline_fields_associative(
    l: ScopeView,
    g: ScopeView,
    h: ScopeView,
    cg: Seq<Constraint>,
    ch: Seq<Constraint>,
)
    ensures
        inline_view(inline_view(l, g, cg), h, ch).fields == inline_view(l, inline_view(g, h, ch), cg).fields,
{
    assert((l.fields + g.fields) + h.fields =~= l.fields + (g.fields + h.fields));
}

/// A named field whose identifier is already present among the inherited
/// fields raises exactly one shadow warning, located at the field and
/// pointing to the inherited one, and no error.
pub proof fn lemma_shadow_single_warning(s: Seq<Field>, f: Field)
    requires
        keyed(s),
        f.id.is_some(),
        has_key(s, f.id),
    ensures
        clashes(s, seq![f], None) == seq![
            Diagnostic::ShadowsParentField { id: f.id.unwrap(), loc: f.loc, prev: s[key_pos(s, f.id)].loc },
        ],
{
    let fs = seq![f];
    assert(fs.drop_last() =~= Seq::<Field>::empty());
    assert(fs.last() == f);
    assert(overlay_all(s, fs.drop_last()) == s);
    assert(clashes(s, fs.drop_last(), None) =~= Seq::<Diagnostic>::empty());
    assert(clashes(s, fs, None) =~= seq![
        Diagnostic::ShadowsParentField { id: f.id.unwrap(), loc: f.loc, prev: s[key_pos(s, f.id)].loc },
    ]);
}

/// Reaching a declaration again while it is in progress (a cycle of group
/// inclusion, inheritance or struct reference) reports one recursion error
/// at that declaration, changes nothing else, and does not follow it.
pub proof fn lemma_reentry_reports_recursion(dv: Seq<Decl>, tv: Seq<usize>, st: ResolveState, k: int, fuel: nat)
    requires
        0 <= k < dv.len(),
        k < st.marks.len(),
        st.marks[k] == Mark::InProgress,
    ensures
        resolve_spec(dv, tv, st, k, fuel) == (
            report(st, Diagnostic::Recursive { id: dv[k].id.unwrap_or(0), kind: dv[k].kind, loc: dv[k].loc }),
            false,
        ),
{
}

/// A group field whose identifier names no registered declaration is
/// reported once as an undeclared group, and one that names a declaration
/// other than a group once as an invalid group; nothing else happens.
pub proof fn lemma_bad_group_reported_once(
    dv: Seq<Decl>,
    tv: Seq<usize>,
    k: int,
    f: Field,
    st: ResolveState,
    l: ScopeView,
    fuel: nat,
    group_id: u64,
    c: usize,
)
    requires
        fuel > 0,
        f.desc == (FieldDesc::Group { group_id, constraints: c }),
    ensures
        lookup_from(dv, tv, group_id, 0) is None ==> field_step(dv, tv, k, f, st, l, fuel) == (
            report(st, Diagnostic::UndeclaredGroup { id: group_id, loc: f.loc }),
            l,
        ),
        lookup_from(dv, tv, group_id, 0) matches Some(g) && dv[g as int].kind != DeclKind::Group
            ==> field_step(dv, tv, k, f, st, l, fuel) == (
            report(st, Diagnostic::InvalidGroup { id: group_id, loc: f.loc }),
            l,
        ),
{
}

} // verus!
