//! Writing what a game file comes to, one file after the other.
//!
//! [`Writing`] decides what is to be done next and takes in how it went. Whoever drives it does the
//! work: it writes files, and has the texts of scripts made.
use crate::error::Stop;
use crate::output;
use crate::output::{FileView, Output, OutputFile, OutputView, ScriptOutput, ScriptView};
use vstd::prelude::*;

verus! {

/// What is to be done next.
#[derive(Debug)]
pub enum Action<'a> {
    /// Write the file.
    Write(&'a OutputFile),
    /// Make the texts of the script.
    Script(&'a ScriptOutput),
    /// Nothing.
    Finish,
}

/// Why writing came to an early end.
#[derive(Debug)]
pub enum Failure<E> {
    /// A file could not be written.
    Write(E),
    /// The game file came to a stop.
    Stop(Stop),
}

/// What an [`Action`] says.
pub enum ActionView {
    Write(FileView),
    Script(ScriptView),
    Finish,
}

impl<'a> View for Action<'a> {
    type V = ActionView;

    open spec fn view(&self) -> ActionView {
        match self {
            Action::Write(file) => ActionView::Write(file@),
            Action::Script(script) => ActionView::Script(script@),
            Action::Finish => ActionView::Finish,
        }
    }
}

/// How far writing has come.
pub struct WritingView<E> {
    /// The files of the script at hand that are still to be written.
    pub pending: Seq<FileView>,
    /// What is still to be written behind them.
    pub todo: Seq<OutputView>,
    /// What went wrong with the last file.
    pub failed: Option<E>,
    /// How the game file came to its end.
    pub end: Result<(), Stop>,
}

/// What is to be done next.
pub open spec fn next_action<E>(w: WritingView<E>) -> ActionView {
    if w.failed is Some {
        ActionView::Finish
    } else if w.pending.len() > 0 {
        ActionView::Write(w.pending[0])
    } else if w.todo.len() > 0 {
        match w.todo[0] {
            OutputView::Block(file) => ActionView::Write(file),
            OutputView::Listing(file) => ActionView::Write(file),
            OutputView::Script(script) => ActionView::Script(script),
        }
    } else {
        ActionView::Finish
    }
}

/// How far writing has come once the next file was written, or could not be.
pub open spec fn after_write<E>(w: WritingView<E>, r: Result<(), E>) -> WritingView<E> {
    match r {
        Err(e) => WritingView { failed: Some(e), ..w },
        Ok(_) => if w.pending.len() > 0 {
            WritingView { pending: w.pending.drop_first(), ..w }
        } else {
            WritingView { todo: w.todo.drop_first(), ..w }
        },
    }
}

/// The texts of a script.
pub struct Texts {
    pub disasm: Seq<char>,
    pub decomp: Seq<char>,
    /// The script's own name, if it has one.
    pub name: Option<Seq<char>>,
}

/// The files that the texts of a script go to.
pub open spec fn text_files(script: ScriptView, texts: Texts) -> Seq<FileView> {
    output::script_views(script, texts.disasm, texts.decomp, texts.name)
}

/// How far writing has come once the texts of the next script were made.
pub open spec fn after_script<E>(w: WritingView<E>, texts: Texts) -> WritingView<E> {
    match w.todo[0] {
        OutputView::Script(script) => WritingView {
            pending: text_files(script, texts),
            todo: w.todo.drop_first(),
            ..w
        },
        _ => w,
    }
}

/// What writing came to.
pub open spec fn outcome<E>(w: WritingView<E>) -> Result<(), Failure<E>> {
    match w.failed {
        Some(e) => Err(Failure::Write(e)),
        None => match w.end {
            Ok(done) => Ok(done),
            Err(stop) => Err(Failure::Stop(stop)),
        },
    }
}

/// Writing what a game file comes to.
pub struct Writing<E> {
    files: Vec<OutputFile>,
    next: usize,
    outs: Vec<Output>,
    at: usize,
    failed: Option<E>,
    end: Result<(), Stop>,
}

impl<E> View for Writing<E> {
    type V = WritingView<E>;

    closed spec fn view(&self) -> WritingView<E> {
        WritingView {
            pending: output::file_views(self.files@.skip(self.next as int)),
            todo: output::views(self.outs@.skip(self.at as int)),
            failed: self.failed,
            end: self.end,
        }
    }
}

impl<E> Writing<E> {
    #[verifier::type_invariant]
    spec fn well_formed(self) -> bool {
        self.next <= self.files@.len() && self.at <= self.outs@.len()
    }

    /// Before anything was written of what a game file comes to.
    pub fn new(outs: Vec<Output>, end: Result<(), Stop>) -> (r: Self)
        ensures
            r@ == start::<E>(output::views(outs@), end),
    {
        let w = Writing { files: Vec::new(), next: 0, outs, at: 0, failed: None, end };
        assert(w@.pending =~= Seq::empty());
        assert(outs@.skip(0) =~= outs@);
        w
    }

    /// Tells what is to be done next.
    pub fn action(&self) -> (r: Action<'_>)
        ensures
            r@ == next_action(self@),
    {
        proof {
            use_type_invariant(self);
        }
        if self.failed.is_some() {
            Action::Finish
        } else if self.next < self.files.len() {
            assert(self@.pending[0] == self.files@[self.next as int]@);
            Action::Write(&self.files[self.next])
        } else if self.at < self.outs.len() {
            assert(self@.todo[0] == self.outs@[self.at as int]@);
            match &self.outs[self.at] {
                Output::Block(file) => Action::Write(file),
                Output::Listing(file) => Action::Write(file),
                Output::Script(script) => Action::Script(script),
            }
        } else {
            Action::Finish
        }
    }

    /// Takes in that the next file was written, or could not be.
    pub fn wrote(&mut self, r: Result<(), E>)
        requires
            next_action(old(self)@) is Write,
        ensures
            final(self)@ == after_write(old(self)@, r),
    {
        proof {
            use_type_invariant(&*self);
        }
        match r {
            Err(e) => {
                self.failed = Some(e);
            },
            Ok(_) => if self.next < self.files.len() {
                self.next = self.next + 1;
                assert(self@.pending =~= old(self)@.pending.drop_first());
            } else {
                assert(self.at < self.outs.len());
                self.at = self.at + 1;
                assert(self@.todo =~= old(self)@.todo.drop_first());
            },
        }
    }

    /// Takes in the texts of the next script. `name` is the script's own name, if it has one.
    pub fn texts(&mut self, disasm: &str, decomp: &str, name: Option<&str>)
        requires
            next_action(old(self)@) is Script,
        ensures
            final(self)@ == after_script(
                old(self)@,
                (Texts { disasm: disasm@, decomp: decomp@, name: output::optional_text(name) }),
            ),
    {
        proof {
            use_type_invariant(&*self);
            assert(self.at < self.outs.len());
            assert(self@.todo[0] == self.outs@[self.at as int]@);
        }
        match &self.outs[self.at] {
            Output::Script(script) => {
                let files: Vec<OutputFile> = script.files(disasm, decomp, name);
                assert(files@.skip(0) =~= files@);
                self.next = 0;
                self.files = files;
                self.at = self.at + 1;
                assert(self@.todo =~= old(self)@.todo.drop_first());
            },
            _ => {
                assert(false);
            },
        }
    }

    /// What writing came to.
    pub fn finish(self) -> (r: Result<(), Failure<E>>)
        requires
            next_action(self@) is Finish,
        ensures
            r == outcome(self@),
    {
        match self.failed {
            Some(e) => Err(Failure::Write(e)),
            None => match self.end {
                Ok(done) => Ok(done),
                Err(stop) => Err(Failure::Stop(stop)),
            },
        }
    }
}

/// Before anything was written.
pub open spec fn start<E>(outs: Seq<OutputView>, end: Result<(), Stop>) -> WritingView<E> {
    WritingView { pending: Seq::empty(), todo: outs, failed: None, end }
}

/// The files that an output goes to, where `texts` gives the texts of each script.
pub open spec fn output_files(
    out: OutputView,
    texts: spec_fn(ScriptView) -> Texts,
) -> Seq<FileView> {
    match out {
        OutputView::Block(file) => seq![file],
        OutputView::Listing(file) => seq![file],
        OutputView::Script(script) => text_files(script, texts(script)),
    }
}

/// The files that outputs go to, in order.
pub open spec fn planned(
    outs: Seq<OutputView>,
    texts: spec_fn(ScriptView) -> Texts,
) -> Seq<FileView>
    decreases outs.len(),
{
    if outs.len() == 0 {
        Seq::empty()
    } else {
        output_files(outs[0], texts) + planned(outs.drop_first(), texts)
    }
}

/// The files that are still to be written.
pub open spec fn remaining<E>(
    w: WritingView<E>,
    texts: spec_fn(ScriptView) -> Texts,
) -> Seq<FileView> {
    w.pending + planned(w.todo, texts)
}

/// The files that are handed out to be written from here on, and what that comes to. `texts` gives
/// the texts of each script, and `answer` how it goes with each file, counted from the first.
pub open spec fn run<E>(
    w: WritingView<E>,
    texts: spec_fn(ScriptView) -> Texts,
    answer: spec_fn(int) -> Result<(), E>,
    calls: Seq<FileView>,
) -> (Seq<FileView>, Result<(), Failure<E>>)
    decreases
            w.todo.len(),
            w.pending.len(),
            if w.failed is None {
                1int
            } else {
                0int
            },
{
    match next_action(w) {
        ActionView::Finish => (calls, outcome(w)),
        ActionView::Script(script) => run(after_script(w, texts(script)), texts, answer, calls),
        ActionView::Write(file) => run(
            after_write(w, answer(calls.len() as int)),
            texts,
            answer,
            calls.push(file),
        ),
    }
}

/// Files are handed out in the order in which they are planned, up to the first that cannot be
/// written. That one ends the run with its own failure, and nothing is handed out behind it. If all
/// can be written, the run ends as the game file does.
///
/// `good` counts the files that can be written before that.
pub proof fn law_first_failed_write_ends_the_run<E>(
    w: WritingView<E>,
    texts: spec_fn(ScriptView) -> Texts,
    answer: spec_fn(int) -> Result<(), E>,
    calls: Seq<FileView>,
    good: int,
)
    requires
        w.failed is None,
        0 <= good <= remaining(w, texts).len(),
        forall|i: int| calls.len() <= i < calls.len() + good ==> (#[trigger] answer(i)) is Ok,
        good < remaining(w, texts).len() ==> answer(calls.len() + good) is Err,
    ensures
        run(w, texts, answer, calls) == if good < remaining(w, texts).len() {
            (
                calls + remaining(w, texts).take(good + 1),
                Err::<(), Failure<E>>(Failure::Write(answer(calls.len() + good)->Err_0)),
            )
        } else {
            (
                calls + remaining(w, texts),
                match w.end {
                    Ok(done) => Ok(done),
                    Err(stop) => Err::<(), Failure<E>>(Failure::Stop(stop)),
                },
            )
        },
    decreases w.todo.len(), w.pending.len(),
{
    let rest = remaining(w, texts);
    match next_action(w) {
        ActionView::Finish => {
            assert(calls + rest =~= calls);
        },
        ActionView::Script(script) => {
            let next = after_script(w, texts(script));
            assert(remaining(next, texts) =~= rest);
            law_first_failed_write_ends_the_run(next, texts, answer, calls, good);
        },
        ActionView::Write(file) => {
            let r = answer(calls.len() as int);
            let next = after_write(w, r);
            assert(rest.len() > 0 && rest[0] == file);
            if good == 0 {
                assert(calls.push(file) =~= calls + rest.take(1));
                assert(run(next, texts, answer, calls.push(file)) == (
                    calls.push(file),
                    outcome(next),
                ));
            } else {
                assert(r is Ok);
                let after = remaining(next, texts);
                assert(rest =~= seq![file] + after);
                assert(calls.push(file).len() + (good - 1) == calls.len() + good);
                law_first_failed_write_ends_the_run(
                    next,
                    texts,
                    answer,
                    calls.push(file),
                    good - 1,
                );
                assert(calls.push(file) + after =~= calls + rest);
                assert(good < rest.len() ==> calls.push(file) + after.take(good) =~= calls
                    + rest.take(good + 1));
            }
        },
    }
}

/// The files of a script are written in order, up to the first that cannot be written. The failure of
/// that one is what comes of it, and no further file is handed out.
pub proof fn law_first_failed_write_ends_a_script<E>(
    script: ScriptView,
    texts: spec_fn(ScriptView) -> Texts,
    answer: spec_fn(int) -> Result<(), E>,
    good: int,
)
    requires
        0 <= good < text_files(script, texts(script)).len(),
        forall|i: int| 0 <= i < good ==> (#[trigger] answer(i)) is Ok,
        answer(good) is Err,
    ensures
        run(start::<E>(seq![OutputView::Script(script)], Ok(())), texts, answer, Seq::empty()) == (
            text_files(script, texts(script)).take(good + 1),
            Err::<(), Failure<E>>(Failure::Write(answer(good)->Err_0)),
        ),
{
    let outs = seq![OutputView::Script(script)];
    let w = start::<E>(outs, Ok(()));
    let files = text_files(script, texts(script));
    assert(outs.drop_first() =~= Seq::empty());
    assert(planned(outs.drop_first(), texts) =~= Seq::empty());
    assert(remaining(w, texts) =~= files);
    law_first_failed_write_ends_the_run(w, texts, answer, Seq::empty(), good);
    assert(Seq::<FileView>::empty() + files.take(good + 1) =~= files.take(good + 1));
}

/// Every output is written, in order: a block and a list to their file, and a script to the files that
/// its texts go to.
pub proof fn law_every_output_is_written(
    front: Seq<OutputView>,
    back: Seq<OutputView>,
    out: OutputView,
    texts: spec_fn(ScriptView) -> Texts,
)
    ensures
        planned(Seq::empty(), texts) == Seq::<FileView>::empty(),
        planned(seq![out], texts) == match out {
            OutputView::Block(file) => seq![file],
            OutputView::Listing(file) => seq![file],
            OutputView::Script(script) => output::script_views(
                script,
                texts(script).disasm,
                texts(script).decomp,
                texts(script).name,
            ),
        },
        planned(front + back, texts) == planned(front, texts) + planned(back, texts),
    decreases front.len(),
{
    assert(seq![out].drop_first() =~= Seq::empty());
    let none = planned(seq![out].drop_first(), texts);
    assert(none =~= Seq::empty());
    assert(planned(seq![out], texts) =~= output_files(out, texts));
    if front.len() == 0 {
        assert(front + back =~= back);
        assert(planned(front, texts) + planned(back, texts) =~= planned(back, texts));
    } else {
        law_every_output_is_written(front.drop_first(), back, out, texts);
        assert((front + back)[0] == front[0]);
        assert((front + back).drop_first() =~= front.drop_first() + back);
        assert(planned(front + back, texts) =~= planned(front, texts) + planned(back, texts));
    }
}

/// Nothing of what is to be done is left out of what an action says.
pub proof fn law_actions_are_seen_whole(action: Action<'_>)
    ensures
        match action {
            Action::Write(file) => action@ == ActionView::Write(
                FileView { path: file.path@, data: file.data@ },
            ),
            Action::Script(script) => action@ == ActionView::Script(
                ScriptView {
                    stem: script.stem@,
                    code: script.code@,
                    scope: script.scope,
                    number: script.number,
                    publish: script.publish,
                },
            ),
            Action::Finish => action@ == ActionView::Finish,
        },
{
}

} // verus!
