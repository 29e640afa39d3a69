//! The data model: syntax groups, operator fixities, application trees, and
//! parse errors, together with their mathematical models.

use vstd::prelude::*;

verus! {

/// How an operator combines with its neighbours: atomic, prefix, postfix or
/// infix, with its binding powers (higher binds tighter).
#[derive(Clone, Copy, Debug)]
pub enum Fixity {
    Infix(u32, u32),
    Prefix(u32),
    Postfix(u32),
    Nonfix,
}

impl Fixity {
    /// True of the fixities that take a left operand from the stream.
    pub open spec fn spec_has_prefix(self) -> bool {
        self is Infix || self is Prefix
    }

    /// True of the fixities that take a right operand from the stream.
    pub open spec fn spec_has_postfix(self) -> bool {
        self is Infix || self is Postfix
    }

    pub fn has_prefix(&self) -> (r: bool)
        ensures
            r == self.spec_has_prefix(),
    {
        match self {
            Fixity::Infix(_, _) | Fixity::Prefix(_) => true,
            Fixity::Postfix(_) | Fixity::Nonfix => false,
        }
    }

    pub fn has_postfix(&self) -> (r: bool)
        ensures
            r == self.spec_has_postfix(),
    {
        match self {
            Fixity::Infix(_, _) | Fixity::Postfix(_) => true,
            Fixity::Prefix(_) | Fixity::Nonfix => false,
        }
    }
}

/// One recognized instance of a mixfix rule: the head marker, the
/// continuation markers copied from the rule, and one inner forest of groups
/// for each continuation marker.
#[derive(Debug)]
pub struct Group {
    pub head_part: String,
    pub name_parts: Vec<String>,
    pub inner_groups: Vec<Vec<Group>>,
}

/// The mathematical model of a `Group`: every token a sequence of characters.
#[verifier::ext_equal]
pub struct GroupModel {
    pub head: Seq<char>,
    pub parts: Seq<Seq<char>>,
    pub inner: Seq<Seq<GroupModel>>,
}

/// The views of a sequence of strings.
pub open spec fn strs_view(ss: Seq<String>) -> Seq<Seq<char>> {
    Seq::new(ss.len(), |i: int| ss[i]@)
}

pub open spec fn group_model(g: Group) -> GroupModel
    decreases g, 0int,
{
    GroupModel {
        head: g.head_part@,
        parts: strs_view(g.name_parts@),
        inner: forests_model_from(g.inner_groups@, 0),
    }
}

pub open spec fn forests_model_from(fs: Seq<Vec<Group>>, k: int) -> Seq<Seq<GroupModel>>
    decreases fs, fs.len() - k,
{
    if k < 0 || k >= fs.len() {
        Seq::empty()
    } else {
        seq![forest_model_from(fs[k]@, 0)] + forests_model_from(fs, k + 1)
    }
}

pub open spec fn forest_model_from(gs: Seq<Group>, k: int) -> Seq<GroupModel>
    decreases gs, gs.len() - k,
{
    if k < 0 || k >= gs.len() {
        Seq::empty()
    } else {
        seq![group_model(gs[k])] + forest_model_from(gs, k + 1)
    }
}

/// The model of a whole forest of groups.
pub open spec fn forest_model(gs: Seq<Group>) -> Seq<GroupModel> {
    forest_model_from(gs, 0)
}

impl View for Group {
    type V = GroupModel;

    open spec fn view(&self) -> GroupModel {
        group_model(*self)
    }
}

pub broadcast proof fn lemma_forest_model_from(gs: Seq<Group>, k: int)
    requires
        0 <= k <= gs.len(),
    ensures
        (#[trigger] forest_model_from(gs, k)).len() == gs.len() - k,
        forall|m: int|
            0 <= m < gs.len() - k ==> #[trigger] forest_model_from(gs, k)[m] == group_model(
                gs[k + m],
            ),
    decreases gs.len() - k,
{
    if k < gs.len() {
        lemma_forest_model_from(gs, k + 1);
        assert forall|m: int| 0 <= m < gs.len() - k implies #[trigger] forest_model_from(gs, k)[m]
            == group_model(gs[k + m]) by {
            if m > 0 {
                assert(forest_model_from(gs, k)[m] == forest_model_from(gs, k + 1)[m - 1]);
            }
        }
    }
}

pub broadcast proof fn lemma_forests_model_from(fs: Seq<Vec<Group>>, k: int)
    requires
        0 <= k <= fs.len(),
    ensures
        (#[trigger] forests_model_from(fs, k)).len() == fs.len() - k,
        forall|m: int|
            0 <= m < fs.len() - k ==> #[trigger] forests_model_from(fs, k)[m] == forest_model(
                fs[k + m]@,
            ),
    decreases fs.len() - k,
{
    if k < fs.len() {
        lemma_forests_model_from(fs, k + 1);
        assert forall|m: int| 0 <= m < fs.len() - k implies #[trigger] forests_model_from(fs, k)[m]
            == forest_model(fs[k + m]@) by {
            if m > 0 {
                assert(forests_model_from(fs, k)[m] == forests_model_from(fs, k + 1)[m - 1]);
            }
        }
    }
}

/// The output tree: an operator name applied to its ordered arguments.
#[derive(Debug)]
pub struct Application(pub String, pub Vec<Application>);

/// The mathematical model of an `Application`.
#[verifier::ext_equal]
pub struct AppModel {
    pub name: Seq<char>,
    pub args: Seq<AppModel>,
}

pub open spec fn app_model(a: Application) -> AppModel
    decreases a, 0int,
{
    AppModel { name: a.0@, args: args_model_from(a.1@, 0) }
}

pub open spec fn args_model_from(s: Seq<Application>, k: int) -> Seq<AppModel>
    decreases s, s.len() - k,
{
    if k < 0 || k >= s.len() {
        Seq::empty()
    } else {
        seq![app_model(s[k])] + args_model_from(s, k + 1)
    }
}

/// The model of a sequence of applications.
pub open spec fn args_model(s: Seq<Application>) -> Seq<AppModel> {
    args_model_from(s, 0)
}

impl View for Application {
    type V = AppModel;

    open spec fn view(&self) -> AppModel {
        app_model(*self)
    }
}

pub broadcast proof fn lemma_args_model_from(s: Seq<Application>, k: int)
    requires
        0 <= k <= s.len(),
    ensures
        (#[trigger] args_model_from(s, k)).len() == s.len() - k,
        forall|m: int|
            0 <= m < s.len() - k ==> #[trigger] args_model_from(s, k)[m] == app_model(s[k + m]),
    decreases s.len() - k,
{
    if k < s.len() {
        lemma_args_model_from(s, k + 1);
        assert forall|m: int| 0 <= m < s.len() - k implies #[trigger] args_model_from(s, k)[m]
            == app_model(s[k + m]) by {
            if m > 0 {
                assert(args_model_from(s, k)[m] == args_model_from(s, k + 1)[m - 1]);
            }
        }
    }
}

/// The first failure found in a left-to-right, depth-first parse.
#[derive(Debug)]
pub enum ParseError {
    /// A token begins no declared rule and is not the awaited terminator.
    UnknownGroupStart { token: String },
    /// End of input (`found` is `None`) or a mismatched token where a rule's
    /// continuation marker was required.
    UnmatchedContinuation { expected: String, found: Option<String> },
    /// A group's head marker has no entry in the fixity table.
    UnknownOperator { head: String },
    /// A postfix or infix group appeared where no left operand exists yet.
    MisplacedOperator { head: String },
    /// The resolver was asked to parse zero groups.
    EmptyExpression,
    /// An internal-consistency fault: resolving an inner forest left groups
    /// behind instead of consuming the whole forest.
    InnerForestNotConsumed,
}

/// The mathematical model of a `ParseError`.
#[verifier::ext_equal]
pub enum ErrorModel {
    UnknownGroupStart { token: Seq<char> },
    UnmatchedContinuation { expected: Seq<char>, found: Option<Seq<char>> },
    UnknownOperator { head: Seq<char> },
    MisplacedOperator { head: Seq<char> },
    EmptyExpression,
    InnerForestNotConsumed,
}

impl View for ParseError {
    type V = ErrorModel;

    open spec fn view(&self) -> ErrorModel {
        match self {
            ParseError::UnknownGroupStart { token } => ErrorModel::UnknownGroupStart {
                token: token@,
            },
            ParseError::UnmatchedContinuation { expected, found } => {
                ErrorModel::UnmatchedContinuation {
                    expected: expected@,
                    found: match found {
                        Some(t) => Some(t@),
                        None => None,
                    },
                }
            },
            ParseError::UnknownOperator { head } => ErrorModel::UnknownOperator { head: head@ },
            ParseError::MisplacedOperator { head } => ErrorModel::MisplacedOperator { head: head@ },
            ParseError::EmptyExpression => ErrorModel::EmptyExpression,
            ParseError::InnerForestNotConsumed => ErrorModel::InnerForestNotConsumed,
        }
    }
}

/// The canonical display form of an operator name: the markers joined by
/// underscores, with a leading or trailing underscore at each operand slot
/// that the fixity implies.
pub open spec fn spec_show_name(head: Seq<char>, parts: Seq<Seq<char>>, fixity: Fixity) -> Seq<
    char,
> {
    (if fixity.spec_has_prefix() {
        "_"@
    } else {
        Seq::<char>::empty()
    }) + head + show_name_parts(parts, 0) + (if fixity.spec_has_postfix() {
        "_"@
    } else {
        Seq::<char>::empty()
    })
}

pub open spec fn show_name_parts(parts: Seq<Seq<char>>, k: int) -> Seq<char>
    decreases parts.len() - k,
{
    if k < 0 || k >= parts.len() {
        Seq::<char>::empty()
    } else {
        "_"@ + parts[k] + show_name_parts(parts, k + 1)
    }
}

impl Group {
    /// The display name of this group under the given fixity.
    pub fn show_name(&self, fixity: Fixity) -> (r: String)
        ensures
            r@ == spec_show_name(self.head_part@, strs_view(self.name_parts@), fixity),
    {
        let ghost parts = strs_view(self.name_parts@);
        let mut result = String::new();
        if fixity.has_prefix() {
            result.append("_");
        }
        result.append(self.head_part.as_str());
        let ghost front = result@;
        let mut i: usize = 0;
        while i < self.name_parts.len()
            invariant
                i <= self.name_parts@.len(),
                parts == strs_view(self.name_parts@),
                result@ + show_name_parts(parts, i as int) == front + show_name_parts(parts, 0),
            decreases self.name_parts@.len() - i,
        {
            let ghost r0 = result@;
            result.append("_");
            result.append(self.name_parts[i].as_str());
            proof {
                assert(parts[i as int] == self.name_parts@[i as int]@);
                assert(result@ + show_name_parts(parts, i + 1) =~= r0 + show_name_parts(
                    parts,
                    i as int,
                ));
            }
            i += 1;
        }
        if fixity.has_postfix() {
            result.append("_");
        }
        proof {
            assert(show_name_parts(parts, self.name_parts@.len() as int) =~= Seq::<char>::empty());
            assert(front + show_name_parts(parts, 0) + (if fixity.spec_has_postfix() {
                "_"@
            } else {
                Seq::<char>::empty()
            }) =~= spec_show_name(self.head_part@, parts, fixity));
            assert(result@ =~= spec_show_name(self.head_part@, parts, fixity));
        }
        result
    }
}

/// The canonical rendering of an application tree: the operator name and its
/// arguments, space-separated, inside parentheses.
pub open spec fn spec_render(m: AppModel) -> Seq<char>
    decreases m, 0int,
{
    "("@ + m.name + spec_render_args(m.args, 0) + ")"@
}

pub open spec fn spec_render_args(args: Seq<AppModel>, k: int) -> Seq<char>
    decreases args, args.len() - k,
{
    if k < 0 || k >= args.len() {
        Seq::<char>::empty()
    } else {
        " "@ + spec_render(args[k]) + spec_render_args(args, k + 1)
    }
}

impl Application {
    /// Renders the tree in its canonical display form.
    pub fn render(&self) -> (r: String)
        ensures
            r@ == spec_render(self@),
        decreases *self, 0int,
    {
        let ghost args = args_model(self.1@);
        let mut result = String::new();
        result.append("(");
        result.append(self.0.as_str());
        let ghost front = result@;
        let mut i: usize = 0;
        while i < self.1.len()
            invariant
                i <= self.1@.len(),
                args == args_model(self.1@),
                result@ + spec_render_args(args, i as int) == front + spec_render_args(args, 0),
            decreases self.1@.len() - i,
        {
            proof {
                lemma_args_model_from(self.1@, 0);
                assert(decreases_to!(*self => self.1));
                assert(decreases_to!(self.1 => self.1@));
            }
            let ghost r0 = result@;
            result.append(" ");
            let rendered = self.1[i].render();
            result.append(rendered.as_str());
            proof {
                assert(args[i as int] == app_model(self.1@[i as int]));
                assert(result@ + spec_render_args(args, i + 1) =~= r0 + spec_render_args(
                    args,
                    i as int,
                ));
            }
            i += 1;
        }
        result.append(")");
        proof {
            lemma_args_model_from(self.1@, 0);
            assert(spec_render_args(args, self.1@.len() as int) =~= Seq::<char>::empty());
            assert(front + spec_render_args(args, 0) + ")"@ =~= spec_render(self@));
            assert(result@ =~= spec_render(self@));
        }
        result
    }
}

} // verus!
