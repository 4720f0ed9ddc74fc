//! The layout of an analysis pipeline: fact passes run one after the other;
//! diagnostic passes added one after another form a group that runs
//! together.  The layout is described as a tree of pass names.
use vstd::prelude::*;
use vstd::string::{StrSliceExecFns, StringExecFns};

verus! {

/// One stage of a pipeline, by the names of its passes.
pub enum Stage {
    /// A fact pass.
    Fact(String),
    /// Diagnostic passes that run together; never empty.
    Group(Vec<String>),
    /// A diagnostic pass that runs on its own.
    Diagnostic(String),
}

/// A stage seen through the texts of its names.
pub enum StageView {
    Fact(Seq<char>),
    Group(Seq<Seq<char>>),
    Diagnostic(Seq<char>),
}

impl View for Stage {
    type V = StageView;

    open spec fn view(&self) -> StageView {
        match self {
            Stage::Fact(n) => StageView::Fact(n@),
            Stage::Group(ns) => StageView::Group(ns@.map_values(|n: String| n@)),
            Stage::Diagnostic(n) => StageView::Diagnostic(n@),
        }
    }
}

/// The stages of a pipeline, in the order they run.
pub struct PipelinePlan {
    stages: Vec<Stage>,
}

/// Every group of `stages` has a pass.
pub open spec fn groups_nonempty(stages: Seq<StageView>) -> bool {
    forall|i: int| 0 <= i < stages.len() ==> (#[trigger] stages[i] matches StageView::Group(g) ==> g.len() > 0)
}

/// `stages` after adding a diagnostic pass named `name`: it joins the last
/// stage when that is a group, else it starts a group.
pub open spec fn with_diagnostic(stages: Seq<StageView>, name: Seq<char>) -> Seq<StageView> {
    if stages.len() > 0 && stages.last() is Group {
        stages.update(stages.len() - 1, StageView::Group(stages.last()->Group_0.push(name)))
    } else {
        stages.push(StageView::Group(seq![name]))
    }
}

/// `s` followed by spaces up to `width` characters.
pub open spec fn pad(s: Seq<char>, width: nat) -> Seq<char> {
    if s.len() < width {
        s + Seq::new((width - s.len()) as nat, |_i: int| ' ')
    } else {
        s
    }
}

/// The line of member `i` of a group of `n` passes.
pub open spec fn group_line(indent: Seq<char>, name: Seq<char>, i: int, n: int) -> Seq<char> {
    indent + (if i + 1 == n {
        "└─"@
    } else {
        "├─"@
    }) + " "@ + pad(name, 22) + " (Diagnostic)\n"@
}

/// The lines of the first `k` members of the group `names`.
pub open spec fn group_lines(indent: Seq<char>, names: Seq<Seq<char>>, k: int) -> Seq<char>
    decreases k,
{
    if k <= 0 {
        Seq::empty()
    } else {
        group_lines(indent, names, k - 1) + group_line(indent, names[k - 1], k - 1, names.len() as int)
    }
}

/// The description of `stages` from stage `i` on: a fact pass with the group
/// that follows it beneath it, a group on its own, or a single diagnostic pass.
pub open spec fn describe_from(stages: Seq<StageView>, i: int) -> Seq<char>
    decreases stages.len() - i,
{
    if i < 0 || i >= stages.len() {
        Seq::empty()
    } else {
        match stages[i] {
            StageView::Fact(n) => pad(n, 25) + " (Fact)\n"@ + if i + 1 < stages.len()
                && stages[i + 1] is Group {
                group_lines(" "@, stages[i + 1]->Group_0, stages[i + 1]->Group_0.len() as int)
                    + describe_from(stages, i + 2)
            } else {
                describe_from(stages, i + 1)
            },
            StageView::Group(g) => group_lines(""@, g, g.len() as int) + describe_from(stages, i + 1),
            StageView::Diagnostic(n) => pad(n, 25) + " (Diagnostic)\n"@ + describe_from(stages, i + 1),
        }
    }
}

/// Appends `s` padded with spaces to `width` characters.
fn append_padded(out: &mut String, s: &str, width: usize)
    ensures
        final(out)@ == old(out)@ + pad(s@, width as nat),
{
    out.append(s);
    let n = s.unicode_len();
    let mut k = n;
    proof {
        assert(out@ =~= old(out)@ + s@ + Seq::new((k - n) as nat, |_i: int| ' '));
    }
    while k < width
        invariant
            n == s@.len(),
            n <= k,
            k <= width || k == n,
            out@ == old(out)@ + s@ + Seq::new((k - n) as nat, |_i: int| ' '),
        decreases width - k,
    {
        out.append(" ");
        proof {
            assert(" "@ =~= seq![' ']) by {
                reveal_strlit(" ");
            }
            assert(out@ =~= old(out)@ + s@ + Seq::new((k + 1 - n) as nat, |_i: int| ' '));
        }
        k = k + 1;
    }
    proof {
        if n < width {
            assert(out@ =~= old(out)@ + pad(s@, width as nat));
        } else {
            assert(out@ =~= old(out)@ + pad(s@, width as nat));
        }
    }
}

/// Appends the lines of the group `names`.
fn append_group(out: &mut String, indent: &str, names: &Vec<String>)
    ensures
        final(out)@ == old(out)@ + group_lines(indent@, names@.map_values(|n: String| n@), names@.len() as int),
{
    let ghost g = names@.map_values(|n: String| n@);
    let n = names.len();
    let mut i: usize = 0;
    while i < n
        invariant
            n == names@.len(),
            g == names@.map_values(|n: String| n@),
            i <= n,
            out@ == old(out)@ + group_lines(indent@, g, i as int),
        decreases n - i,
    {
        let ghost before = out@;
        out.append(indent);
        if i + 1 == n {
            out.append("└─");
        } else {
            out.append("├─");
        }
        out.append(" ");
        append_padded(out, names[i].as_str(), 22);
        out.append(" (Diagnostic)\n");
        proof {
            assert(g[i as int] == names@[i as int]@);
            assert(out@ =~= before + group_line(indent@, g[i as int], i as int, n as int));
        }
        i = i + 1;
    }
}

impl PipelinePlan {
    pub closed spec fn stages_view(&self) -> Seq<StageView> {
        self.stages@.map_values(|s: Stage| s@)
    }

    /// The plan is consistent: no group is empty.
    pub closed spec fn wf(&self) -> bool {
        groups_nonempty(self.stages_view())
    }

    pub fn new() -> (r: Self)
        ensures
            r.wf(),
            r.stages_view() == Seq::<StageView>::empty(),
    {
        let r = PipelinePlan { stages: Vec::new() };
        proof {
            assert(r.stages_view() =~= Seq::<StageView>::empty());
        }
        r
    }

    pub fn add_fact(&mut self, name: String)
        requires
            old(self).wf(),
        ensures
            final(self).wf(),
            final(self).stages_view() == old(self).stages_view().push(StageView::Fact(name@)),
    {
        self.stages.push(Stage::Fact(name));
        proof {
            assert(self.stages_view() =~= old(self).stages_view().push(StageView::Fact(name@)));
        }
    }

    /// Adds a diagnostic pass to the group that ends the plan, or starts a
    /// group with it.
    pub fn add_diagnostic(&mut self, name: String)
        requires
            old(self).wf(),
        ensures
            final(self).wf(),
            final(self).stages_view() == with_diagnostic(old(self).stages_view(), name@),
    {
        let n = self.stages.len();
        let joins = n > 0 && match &self.stages[n - 1] {
            Stage::Group(_) => true,
            _ => false,
        };
        if joins {
            let last = self.stages.pop().unwrap();
            match last {
                Stage::Group(mut names) => {
                    let ghost before = names@;
                    names.push(name);
                    self.stages.push(Stage::Group(names));
                    proof {
                        let o = old(self).stages_view();
                        assert(o.last() == old(self).stages@[n - 1]@);
                        assert(names@.map_values(|s: String| s@) =~= before.map_values(|s: String| s@).push(name@));
                        assert(self.stages_view() =~= with_diagnostic(o, name@));
                    }
                },
                _ => {
                    proof {
                        assert(false);
                    }
                },
            }
        } else {
            let mut names: Vec<String> = Vec::new();
            names.push(name);
            self.stages.push(Stage::Group(names));
            proof {
                let o = old(self).stages_view();
                if n > 0 {
                    assert(o.last() == old(self).stages@[n - 1]@);
                }
                assert(names@.map_values(|s: String| s@) =~= seq![name@]);
                assert(self.stages_view() =~= with_diagnostic(o, name@));
            }
        }
    }

    /// Adds a diagnostic pass that runs on its own.
    pub fn add_diagnostic_ungrouped(&mut self, name: String)
        requires
            old(self).wf(),
        ensures
            final(self).wf(),
            final(self).stages_view() == old(self).stages_view().push(StageView::Diagnostic(name@)),
    {
        self.stages.push(Stage::Diagnostic(name));
        proof {
            assert(self.stages_view() =~= old(self).stages_view().push(StageView::Diagnostic(name@)));
        }
    }

    pub fn stages(&self) -> (r: &Vec<Stage>)
        ensures
            r@.map_values(|s: Stage| s@) == self.stages_view(),
    {
        &self.stages
    }

    /// A tree-like text of the stages, one pass per line.
    pub fn describe(&self) -> (r: String)
        ensures
            r@ == describe_from(self.stages_view(), 0),
    {
        let ghost st = self.stages_view();
        let mut out = String::new();
        let n = self.stages.len();
        let mut i: usize = 0;
        proof {
            assert(out@ + describe_from(st, 0) =~= describe_from(st, 0));
        }
        while i < n
            invariant
                n == self.stages@.len(),
                st == self.stages_view(),
                i <= n,
                out@ + describe_from(st, i as int) == describe_from(st, 0),
            decreases n - i,
        {
            let ghost before = out@;
            proof {
                assert(st[i as int] == self.stages@[i as int]@);
            }
            match &self.stages[i] {
                Stage::Fact(name) => {
                    append_padded(&mut out, name.as_str(), 25);
                    out.append(" (Fact)\n");
                    let grouped = i + 1 < n && match &self.stages[i + 1] {
                        Stage::Group(_) => true,
                        _ => false,
                    };
                    if grouped {
                        proof {
                            assert(st[i + 1] == self.stages@[i + 1]@);
                        }
                        match &self.stages[i + 1] {
                            Stage::Group(names) => {
                                append_group(&mut out, " ", names);
                            },
                            _ => {},
                        }
                        proof {
                            assert(out@ + describe_from(st, i + 2) =~= before + describe_from(st, i as int));
                        }
                        i = i + 2;
                    } else {
                        proof {
                            if i + 1 < n {
                                assert(st[i + 1] == self.stages@[i + 1]@);
                            }
                            assert(out@ + describe_from(st, i + 1) =~= before + describe_from(st, i as int));
                        }
                        i = i + 1;
                    }
                },
                Stage::Group(names) => {
                    append_group(&mut out, "", names);
                    proof {
                        assert(out@ + describe_from(st, i + 1) =~= before + describe_from(st, i as int));
                    }
                    i = i + 1;
                },
                Stage::Diagnostic(name) => {
                    append_padded(&mut out, name.as_str(), 25);
                    out.append(" (Diagnostic)\n");
                    proof {
                        assert(out@ + describe_from(st, i + 1) =~= before + describe_from(st, i as int));
                    }
                    i = i + 1;
                },
            }
        }
        proof {
            assert(describe_from(st, i as int) =~= Seq::<char>::empty());
            assert(out@ =~= describe_from(st, 0));
        }
        out
    }
}

/// The name of a group of diagnostic passes: `DiagnosticGroup[<name>]` for
/// one pass, `DiagnosticGroup(<n>): [<a>, <b>, ...]` for several.
pub open spec fn group_name(names: Seq<Seq<char>>, count_text: Seq<char>) -> Seq<char> {
    if names.len() == 1 {
        "DiagnosticGroup["@ + names[0] + "]"@
    } else {
        "DiagnosticGroup("@ + count_text + "): ["@ + joined(names, names.len() as int) + "]"@
    }
}

/// The first `k` names joined by `", "`.
pub open spec fn joined(names: Seq<Seq<char>>, k: int) -> Seq<char>
    decreases k,
{
    if k <= 0 {
        Seq::empty()
    } else if k == 1 {
        names[0]
    } else {
        joined(names, k - 1) + ", "@ + names[k - 1]
    }
}

/// The name of the group `names`, which must not be empty.
pub fn describe_group(names: &Vec<String>) -> (r: String)
    requires
        names@.len() > 0,
    ensures
        r@ == group_name(
            names@.map_values(|n: String| n@),
            crate::text::decimal(names@.len()),
        ),
{
    let ghost g = names@.map_values(|n: String| n@);
    let n = names.len();
    if n == 1 {
        let mut r = String::from_str("DiagnosticGroup[");
        r.append(names[0].as_str());
        r.append("]");
        proof {
            assert(g[0] == names@[0]@);
        }
        r
    } else {
        let mut r = String::from_str("DiagnosticGroup(");
        let count = crate::text::usize_to_string(n);
        r.append(count.as_str());
        r.append("): [");
        let ghost head = r@;
        let mut i: usize = 0;
        while i < n
            invariant
                n == names@.len(),
                n > 1,
                g == names@.map_values(|n: String| n@),
                i <= n,
                r@ == head + joined(g, i as int),
            decreases n - i,
        {
            if i > 0 {
                r.append(", ");
            }
            r.append(names[i].as_str());
            proof {
                assert(g[i as int] == names@[i as int]@);
                if i == 0 {
                    assert(r@ =~= head + joined(g, 1));
                } else {
                    assert(r@ =~= head + joined(g, i + 1));
                }
            }
            i = i + 1;
        }
        r.append("]");
        r
    }
}

} // verus!
