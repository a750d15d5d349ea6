//! What a run prints, once the fortunes are read.
//!
//! With a pattern, the groups that it finds: before each group its source, in
//! round brackets, goes to standard error, and then each text of the group to
//! standard output, each of the two followed by a line with a percent sign.
//! Without a pattern, one fortune picked from all of them goes to standard
//! output, or a notice that there is none.
use vstd::prelude::*;
use vstd::string::StringExecFns;
use crate::config::Config;
use crate::fortune::record_views;
use crate::fortune::Fortune;
use crate::fortune::Record;
use crate::matcher::filter;
use crate::matcher::group_views;
use crate::matcher::matching_groups;
use crate::matcher::Group;
use crate::matcher::GroupView;
use crate::select::option_view;
use crate::select::pick_fortune;
use crate::select::is_pick;
use crate::select::picked_text;

verus! {

/// Text to print, a line break after it, and where to print it.
#[derive(Debug)]
pub enum Emit {
    Stdout(String),
    Stderr(String),
}

/// What an `Emit` holds, as plain text.
pub enum EmitView {
    Stdout(Seq<char>),
    Stderr(Seq<char>),
}

impl View for Emit {
    type V = EmitView;

    open spec fn view(&self) -> EmitView {
        match self {
            Emit::Stdout(text) => EmitView::Stdout(text@),
            Emit::Stderr(text) => EmitView::Stderr(text@),
        }
    }
}

/// What each of `emits` holds.
pub open spec fn emit_views(emits: Seq<Emit>) -> Seq<EmitView> {
    emits.map_values(|emit: Emit| emit@)
}

/// The line that ends what is printed for a source or a text.
pub open spec fn closing_line() -> Seq<char> {
    "\n%"@
}

/// What is printed before a group: its source in round brackets.
pub open spec fn header_text(source: Seq<char>) -> Seq<char> {
    "("@ + source + ")"@ + closing_line()
}

/// What is printed for a text of a group.
pub open spec fn body_text(text: Seq<char>) -> Seq<char> {
    text + closing_line()
}

/// What is printed where there is nothing to pick from.
pub open spec fn no_fortunes_text() -> Seq<char> {
    "No fortunes found"@
}

/// What is printed for one group.
pub open spec fn group_output(group: GroupView) -> Seq<EmitView> {
    seq![EmitView::Stderr(header_text(group.source))] + group.texts.map_values(
        |text: Seq<char>| EmitView::Stdout(body_text(text)),
    )
}

/// What is printed for the groups, group after group.
pub open spec fn groups_output(groups: Seq<GroupView>) -> Seq<EmitView>
    decreases groups.len(),
{
    if groups.len() == 0 {
        Seq::empty()
    } else {
        groups_output(groups.drop_last()) + group_output(groups.last())
    }
}

/// What is printed for a pick: the text, or the notice that there is none.
pub open spec fn pick_output(text: Option<Seq<char>>) -> Seq<EmitView> {
    seq![
        EmitView::Stdout(
            match text {
                Some(text) => text,
                None => no_fortunes_text(),
            },
        ),
    ]
}

/// Lays out the groups for printing.
pub fn render_groups(groups: &Vec<Group>) -> (emits: Vec<Emit>)
    ensures
        emit_views(emits@) == groups_output(group_views(groups@)),
{
    let ghost all = group_views(groups@);
    let mut emits: Vec<Emit> = Vec::new();
    let n: usize = groups.len();
    let mut g: usize = 0;
    assert(emit_views(emits@) == groups_output(all.subrange(0, 0)));
    while g < n
        invariant
            g <= n,
            n == groups@.len(),
            all == group_views(groups@),
            emit_views(emits@) == groups_output(all.subrange(0, g as int)),
        decreases n - g,
    {
        let group = &groups[g];
        let ghost done = emit_views(emits@);
        let mut header = String::from_str("(");
        header.append(group.source.as_str());
        header.append(")");
        header.append("\n%");
        let emit = Emit::Stderr(header);
        assert(emit_views(emits@.push(emit)) == emit_views(emits@).push(emit@));
        emits.push(emit);
        let m: usize = group.texts.len();
        let mut t: usize = 0;
        let ghost texts = group@.texts;
        assert(texts.subrange(0, 0).map_values(|text: Seq<char>| EmitView::Stdout(body_text(text)))
            == Seq::<EmitView>::empty());
        while t < m
            invariant
                t <= m,
                m == group.texts@.len(),
                texts == group@.texts,
                emit_views(emits@) == done + seq![EmitView::Stderr(header_text(group.source@))]
                    + texts.subrange(0, t as int).map_values(
                    |text: Seq<char>| EmitView::Stdout(body_text(text)),
                ),
            decreases m - t,
        {
            let mut body = group.texts[t].clone();
            body.append("\n%");
            let emit = Emit::Stdout(body);
            proof {
                assert(texts[t as int] == group.texts@[t as int]@);
                assert(emit_views(emits@.push(emit)) == emit_views(emits@).push(emit@));
                assert(texts.subrange(0, t + 1).map_values(
                    |text: Seq<char>| EmitView::Stdout(body_text(text)),
                ) == texts.subrange(0, t as int).map_values(
                    |text: Seq<char>| EmitView::Stdout(body_text(text)),
                ).push(emit@));
            }
            emits.push(emit);
            t = t + 1;
        }
        proof {
            assert(texts.subrange(0, m as int) == texts);
            let longer = all.subrange(0, g + 1);
            assert(longer.drop_last() == all.subrange(0, g as int));
            assert(longer.last() == group@);
        }
        g = g + 1;
    }
    assert(all.subrange(0, n as int) == all);
    emits
}

/// Lays out a pick for printing: the text that was picked, or the notice that
/// there are no fortunes.
pub fn render_pick(text: Option<String>) -> (emits: Vec<Emit>)
    ensures
        emit_views(emits@) == pick_output(option_view(text)),
{
    let shown = match text {
        Some(text) => text,
        None => String::from_str("No fortunes found"),
    };
    let mut emits: Vec<Emit> = Vec::new();
    emits.push(Emit::Stdout(shown));
    assert(emit_views(emits@) == pick_output(option_view(text)));
    emits
}

/// True where `output` is what is printed for a pick from `records`.
pub open spec fn is_pick_output(
    output: Seq<EmitView>,
    records: Seq<Record>,
    seed: Option<u64>,
) -> bool {
    exists|text: Option<Seq<char>>|
        is_pick(records, seed, text) && output == #[trigger] pick_output(text)
}

/// Decides what to print for `fortunes`.
///
/// With a pattern, the groups that it finds among the fortunes. Without one, a
/// fortune picked from all of them: by the seed where there is one, and else
/// by chance.
pub fn run(config: &Config, fortunes: &[Fortune]) -> (emits: Vec<Emit>)
    ensures
        match config.pattern {
            Some(pattern) => emit_views(emits@) == groups_output(
                matching_groups(record_views(fortunes@), pattern),
            ),
            None => is_pick_output(emit_views(emits@), record_views(fortunes@), config.seed),
        },
{
    match &config.pattern {
        Some(pattern) => {
            let groups = filter(fortunes, pattern);
            render_groups(&groups)
        },
        None => {
            let text = pick_fortune(fortunes, config.seed);
            let ghost picked = option_view(text);
            let emits = render_pick(text);
            assert(emit_views(emits@) == pick_output(picked));
            emits
        },
    }
}

/// What is printed for a pick with a seed is decided by the seed and the
/// fortunes.
pub proof fn lemma_seeded_output(records: Seq<Record>, seed: u64, output: Seq<EmitView>)
    requires
        is_pick_output(output, records, Some(seed)),
    ensures
        output == pick_output(picked_text(records, seed)),
        records.len() == 0 ==> output == pick_output(None),
{
}

} // verus!
