//! The prerequisite expression tree: a closed variant over course
//! references, conjunction, disjunction, and minimum-credit clauses.
use vstd::prelude::*;

verus! {

/// Mathematical model of a prerequisite tree, used by every contract
/// that speaks about trees. Subject codes are sequences of characters.
pub ghost enum TreeView {
    Course { subject: Seq<char>, catalog: u32 },
    And(Box<TreeView>, Box<TreeView>),
    Or(Box<TreeView>, Box<TreeView>),
    MinCredit { credits: u32, subjects: Option<Seq<Seq<char>>>, levels: Option<Seq<u32>> },
}

/// A reference to a course: subject code plus 4-digit catalog code.
#[derive(Debug)]
pub struct CourseNode {
    pub subject_code: String,
    pub catalog_code: u32,
}

/// A binary logical connective node owning its two children.
#[derive(Debug)]
pub struct LogicNode {
    pub left: Box<PrerequisiteTree>,
    pub right: Box<PrerequisiteTree>,
}

impl LogicNode {
    /// Boxes the two children of a conjunction or disjunction.
    pub fn new(left: PrerequisiteTree, right: PrerequisiteTree) -> (r: Self)
        ensures
            r.left == left,
            r.right == right,
    {
        Self { left: Box::new(left), right: Box::new(right) }
    }
}

/// A minimum-credit clause: satisfied by accumulating enough completed
/// courses matching the optional subject and level filters.
#[derive(Debug)]
pub struct MinCreditNode {
    pub credits: u32,
    pub required_subjects: Option<Vec<String>>,
    pub required_levels: Option<Vec<u32>>,
}

/// A prerequisite expression over completed courses.
#[derive(Debug)]
pub enum PrerequisiteTree {
    CourseNode(CourseNode),
    OrNode(LogicNode),
    AndNode(LogicNode),
    MinCreditNode(MinCreditNode),
}

/// The model of a tree: the same shape, with every subject code taken
/// to its character sequence.
pub open spec fn tree_view(t: PrerequisiteTree) -> TreeView
    decreases t,
{
    match t {
        PrerequisiteTree::CourseNode(c) => TreeView::Course {
            subject: c.subject_code@,
            catalog: c.catalog_code,
        },
        PrerequisiteTree::AndNode(n) => TreeView::And(
            Box::new(tree_view(*n.left)),
            Box::new(tree_view(*n.right)),
        ),
        PrerequisiteTree::OrNode(n) => TreeView::Or(
            Box::new(tree_view(*n.left)),
            Box::new(tree_view(*n.right)),
        ),
        PrerequisiteTree::MinCreditNode(m) => TreeView::MinCredit {
            credits: m.credits,
            subjects: m.required_subjects.deep_view(),
            levels: m.required_levels.deep_view(),
        },
    }
}

impl DeepView for PrerequisiteTree {
    type V = TreeView;

    open spec fn deep_view(&self) -> TreeView {
        tree_view(*self)
    }
}

/// Equality of two vectors of subject codes, character by character.
pub(crate) fn vec_string_eq(a: &Vec<String>, b: &Vec<String>) -> (r: bool)
    ensures
        r == (a.deep_view() == b.deep_view()),
{
    if a.len() != b.len() {
        assert(a.deep_view().len() != b.deep_view().len());
        return false;
    }
    let n = a.len();
    let mut i: usize = 0;
    while i < n
        invariant
            0 <= i <= n,
            n == a.len() == b.len(),
            forall|j: int| 0 <= j < i ==> a.deep_view()[j] == b.deep_view()[j],
        decreases n - i,
    {
        if !(a[i] == b[i]) {
            assert(a.deep_view()[i as int] != b.deep_view()[i as int]);
            return false;
        }
        i += 1;
    }
    assert(a.deep_view() =~= b.deep_view());
    true
}

/// Equality of two vectors of level markers.
pub(crate) fn vec_u32_eq(a: &Vec<u32>, b: &Vec<u32>) -> (r: bool)
    ensures
        r == (a@ == b@),
{
    if a.len() != b.len() {
        return false;
    }
    let n = a.len();
    let mut i: usize = 0;
    while i < n
        invariant
            0 <= i <= n,
            n == a.len() == b.len(),
            forall|j: int| 0 <= j < i ==> a@[j] == b@[j],
        decreases n - i,
    {
        if a[i] != b[i] {
            return false;
        }
        i += 1;
    }
    assert(a@ =~= b@);
    true
}

impl Clone for CourseNode {
    fn clone(&self) -> (res: Self)
        ensures
            res.subject_code@ == self.subject_code@,
            res.catalog_code == self.catalog_code,
    {
        CourseNode { subject_code: self.subject_code.clone(), catalog_code: self.catalog_code }
    }
}

impl Clone for MinCreditNode {
    fn clone(&self) -> (res: Self)
        ensures
            res.deep_view_node() == self.deep_view_node(),
    {
        let required_subjects = match &self.required_subjects {
            Some(v) => {
                let c = v.clone();
                proof {
                    assert(forall|i: int| 0 <= i < v.len() ==> c.deep_view()[i] == v.deep_view()[i]);
                    assert(c.deep_view() =~= v.deep_view());
                }
                Some(c)
            },
            None => None,
        };
        let required_levels = match &self.required_levels {
            Some(v) => {
                let c = v.clone();
                proof {
                    assert(c@ =~= v@);
                }
                Some(c)
            },
            None => None,
        };
        MinCreditNode { credits: self.credits, required_subjects, required_levels }
    }
}

impl MinCreditNode {
    /// The model of a minimum-credit clause on its own.
    pub open spec fn deep_view_node(&self) -> TreeView {
        TreeView::MinCredit {
            credits: self.credits,
            subjects: self.required_subjects.deep_view(),
            levels: self.required_levels.deep_view(),
        }
    }
}

impl Clone for PrerequisiteTree {
    fn clone(&self) -> (res: Self)
        ensures
            res.deep_view() == self.deep_view(),
        decreases self,
    {
        match self {
            PrerequisiteTree::CourseNode(c) => PrerequisiteTree::CourseNode(c.clone()),
            PrerequisiteTree::AndNode(n) => PrerequisiteTree::AndNode(
                LogicNode { left: Box::new((&*n.left).clone()), right: Box::new((&*n.right).clone()) },
            ),
            PrerequisiteTree::OrNode(n) => PrerequisiteTree::OrNode(
                LogicNode { left: Box::new((&*n.left).clone()), right: Box::new((&*n.right).clone()) },
            ),
            PrerequisiteTree::MinCreditNode(m) => PrerequisiteTree::MinCreditNode(m.clone()),
        }
    }
}

/// Structural equality of two trees, by their models.
fn tree_eq(x: &PrerequisiteTree, y: &PrerequisiteTree) -> (r: bool)
    ensures
        r == (x.deep_view() == y.deep_view()),
    decreases *x,
{
    match x {
        PrerequisiteTree::CourseNode(a) => match y {
            PrerequisiteTree::CourseNode(b) => {
                let r = a.subject_code == b.subject_code && a.catalog_code == b.catalog_code;
                assert(r == (x.deep_view() == y.deep_view()));
                r
            },
            _ => false,
        },
        PrerequisiteTree::AndNode(a) => match y {
            PrerequisiteTree::AndNode(b) => {
                let r = tree_eq(&a.left, &b.left) && tree_eq(&a.right, &b.right);
                assert(r == (x.deep_view() == y.deep_view()));
                r
            },
            _ => false,
        },
        PrerequisiteTree::OrNode(a) => match y {
            PrerequisiteTree::OrNode(b) => {
                let r = tree_eq(&a.left, &b.left) && tree_eq(&a.right, &b.right);
                assert(r == (x.deep_view() == y.deep_view()));
                r
            },
            _ => false,
        },
        PrerequisiteTree::MinCreditNode(a) => match y {
            PrerequisiteTree::MinCreditNode(b) => {
                let subjects_eq = match &a.required_subjects {
                    Some(sx) => match &b.required_subjects {
                        Some(sy) => vec_string_eq(sx, sy),
                        None => false,
                    },
                    None => b.required_subjects.is_none(),
                };
                let levels_eq = match &a.required_levels {
                    Some(lx) => match &b.required_levels {
                        Some(ly) => {
                            let e = vec_u32_eq(lx, ly);
                            proof {
                                assert(lx.deep_view() =~= lx@);
                                assert(ly.deep_view() =~= ly@);
                            }
                            e
                        },
                        None => false,
                    },
                    None => b.required_levels.is_none(),
                };
                let r = a.credits == b.credits && subjects_eq && levels_eq;
                assert(r == (x.deep_view() == y.deep_view()));
                r
            },
            _ => false,
        },
    }
}

impl PartialEq for PrerequisiteTree {
    fn eq(&self, other: &Self) -> (r: bool) {
        tree_eq(self, other)
    }
}

impl vstd::std_specs::cmp::PartialEqSpecImpl for PrerequisiteTree {
    open spec fn obeys_eq_spec() -> bool {
        true
    }

    open spec fn eq_spec(&self, other: &Self) -> bool {
        self.deep_view() == other.deep_view()
    }
}

} // verus!
