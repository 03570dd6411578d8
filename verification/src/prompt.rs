//! The dialog that asks for a name, and what comes of its answer: a new folder
//! or a rename.
use vstd::prelude::*;
use crate::names::{self, validate_name_syntax};
use crate::pane::{self, Pane};
use crate::paths::{self, file_name, join, parent};
use crate::text::{self, cat, chars_of, same_text, to_lower_text};
use crate::transfer::{FileAction, FileEvent};
use crate::undo::{UndoEntry, UndoOp};

verus! {

/// What the name is for.
pub enum PromptKind {
    NewFolder,
    /// An entry of the listing gets another name.
    Rename { orig: String },
    /// A folder gets another name, which may be the one we are in.
    RenameDir { dir: String },
}

/// The dialog.
pub struct NamePrompt {
    pub kind: PromptKind,
    /// What has been typed.
    pub buf: String,
    pub error: Option<String>,
    /// The text field wants the keyboard.
    pub focus: bool,
}

/// The title of the dialog.
pub open spec fn title_spec(kind: PromptKind) -> Seq<char> {
    match kind {
        PromptKind::NewFolder => "New folder"@,
        PromptKind::Rename { .. } => "Rename"@,
        PromptKind::RenameDir { .. } => "Rename folder"@,
    }
}

/// How many characters are selected at first: of an entry that is renamed the
/// name without its extension, else all of them.
pub open spec fn preselected(kind: PromptKind, buf: Seq<char>) -> nat {
    let dot = paths::last_dot(buf);
    if kind is Rename && dot > 0 {
        dot as nat
    } else {
        buf.len()
    }
}

impl NamePrompt {
    /// A dialog with a name proposed.
    pub fn new(kind: PromptKind, buf: String) -> (r: NamePrompt)
        ensures
            r == (NamePrompt { kind, buf, error: None, focus: true }),
    {
        NamePrompt { kind, buf, error: None, focus: true }
    }

    /// The title of the dialog.
    pub fn title(&self) -> (r: &'static str)
        ensures
            r@ == title_spec(self.kind),
    {
        match &self.kind {
            PromptKind::NewFolder => "New folder",
            PromptKind::Rename { .. } => "Rename",
            PromptKind::RenameDir { .. } => "Rename folder",
        }
    }

    /// How many characters are selected at first.
    pub fn preselect(&self) -> (r: usize)
        ensures
            r == preselected(self.kind, self.buf@),
    {
        let v = chars_of(self.buf.as_str());
        let n: usize = v.len();
        if matches!(self.kind, PromptKind::Rename { .. }) {
            let mut i: usize = n;
            assert(v@.take(n as int) =~= v@);
            while i > 0
                invariant
                    i <= n,
                    n == v@.len(),
                    v@ == self.buf@,
                    self.kind is Rename,
                    paths::last_dot(v@) == paths::last_dot(v@.take(i as int)),
                decreases i,
            {
                assert(v@.take(i as int).drop_last() =~= v@.take(i - 1));
                if v[i - 1] == '.' {
                    return if i > 1 {
                        i - 1
                    } else {
                        n
                    };
                }
                i -= 1;
            }
        }
        n
    }
}

/// What an answer asks for.
pub enum EditPlan {
    /// The name is refused.
    Refused(String),
    /// The name is the one it has.
    Unchanged,
    Make { target: String, name: String },
    /// `check`: nothing may have the new name; not asked where the names differ
    /// in case only, as the file itself may have it then.
    Rename { src: String, dst: String, name: String, check: bool },
}

/// The names differ in case at most.
pub open spec fn same_but_case(a: Seq<char>, b: Seq<char>) -> bool {
    text::lower_text(a) == text::lower_text(b)
}

/// A rename of `src` from `orig` to `name`, which lies at `dst` then.
pub open spec fn renames(plan: EditPlan, src: Seq<char>, dst: Seq<char>, orig: Seq<char>, name: Seq<char>) -> bool {
    plan matches EditPlan::Rename { src: s, dst: d, name: n, check } && s@ == src && d@ == dst && n@ == name && check
        == !same_but_case(name, orig)
}

/// What an answer asks for in a pane.
pub open spec fn plans(p: Pane, prompt: NamePrompt, plan: EditPlan) -> bool {
    let name = text::trim(prompt.buf@);
    let dir = p.current_dir@;
    match prompt.kind {
        PromptKind::NewFolder => match pane::listed_name_error(p.all_entries@, name, None) {
            Some(e) => plan matches EditPlan::Refused(m) && m@ == e,
            None => plan matches EditPlan::Make { target, name: n } && n@ == name && target@ == paths::join_spec(
                p.style,
                dir,
                name,
            ),
        },
        PromptKind::Rename { orig } => match pane::listed_name_error(p.all_entries@, name, Some(orig@)) {
            Some(e) => plan matches EditPlan::Refused(m) && m@ == e,
            None => if name == orig@ {
                plan is Unchanged
            } else {
                renames(
                    plan,
                    paths::join_spec(p.style, dir, orig@),
                    paths::join_spec(p.style, dir, name),
                    orig@,
                    name,
                )
            },
        },
        PromptKind::RenameDir { dir: d } => match names::name_error(name) {
            Some(e) => plan matches EditPlan::Refused(m) && m@ == e,
            None => {
                let orig = match paths::file_name_spec(p.style, d@) {
                    Some(n) => n,
                    None => Seq::empty(),
                };
                if name == orig {
                    plan is Unchanged
                } else {
                    match paths::parent_spec(p.style, d@) {
                        None => plan matches EditPlan::Refused(m) && m@ == "A drive root can't be renamed."@,
                        Some(up) => renames(plan, d@, paths::join_spec(p.style, up, name), orig, name),
                    }
                }
            },
        },
    }
}

fn differs(a: &str, b: &str) -> (r: bool)
    ensures
        r == !same_but_case(a@, b@),
{
    !same_text(to_lower_text(a).as_str(), to_lower_text(b).as_str())
}

/// What the answer of a dialog asks for in a pane.
pub fn plan_edit(p: &Pane, prompt: &NamePrompt) -> (r: EditPlan)
    ensures
        plans(*p, *prompt, r),
{
    let dir = p.current_dir.as_str();
    match &prompt.kind {
        PromptKind::NewFolder => match p.validate_name(prompt.buf.as_str(), None) {
            Err(e) => EditPlan::Refused(e),
            Ok(name) => EditPlan::Make { target: join(p.style, dir, name.as_str()), name },
        },
        PromptKind::Rename { orig } => match p.validate_name(prompt.buf.as_str(), Some(orig.as_str())) {
            Err(e) => EditPlan::Refused(e),
            Ok(name) => {
                if same_text(name.as_str(), orig.as_str()) {
                    EditPlan::Unchanged
                } else {
                    let check = differs(name.as_str(), orig.as_str());
                    EditPlan::Rename {
                        src: join(p.style, dir, orig.as_str()),
                        dst: join(p.style, dir, name.as_str()),
                        name,
                        check,
                    }
                }
            },
        },
        PromptKind::RenameDir { dir: d } => match validate_name_syntax(prompt.buf.as_str()) {
            Err(e) => EditPlan::Refused(e),
            Ok(name) => {
                let orig = match file_name(p.style, d.as_str()) {
                    Some(n) => n,
                    None => String::new(),
                };
                assert(paths::file_name_spec(p.style, d@) is None ==> orig@ =~= Seq::empty());
                if same_text(name.as_str(), orig.as_str()) {
                    return EditPlan::Unchanged;
                }
                match parent(p.style, d.as_str()) {
                    None => EditPlan::Refused("A drive root can't be renamed.".to_owned()),
                    Some(up) => {
                        let check = differs(name.as_str(), orig.as_str());
                        EditPlan::Rename {
                            src: d.clone(),
                            dst: join(p.style, up.as_str(), name.as_str()),
                            name,
                            check,
                        }
                    },
                }
            },
        },
    }
}

/// Where an edit stands.
pub enum EditStep {
    Ready,
    /// Asked whether the new name is taken.
    Checking,
    Making,
    Renaming,
    /// It is over: whether something changed, or why not.
    Ended(Result<bool, String>),
}

/// An edit that is being made.
pub struct Edit {
    pub plan: EditPlan,
    pub step: EditStep,
}

/// The event is one that the step waits for.
pub open spec fn edit_awaits(step: EditStep, ev: FileEvent) -> bool {
    match step {
        EditStep::Ready => ev is Begin,
        EditStep::Checking => ev is Answer,
        EditStep::Making => ev is Did,
        EditStep::Renaming => ev is Did,
        EditStep::Ended(_) => false,
    }
}

/// The step fits the plan.
pub open spec fn edit_ok(e: Edit) -> bool {
    match e.step {
        EditStep::Checking => e.plan is Rename,
        EditStep::Renaming => e.plan is Rename,
        EditStep::Making => e.plan is Make,
        _ => true,
    }
}

/// The edit ended so.
pub open spec fn edit_ends(e: Edit, f: Edit, act: FileAction, changed: bool) -> bool {
    f == (Edit { step: EditStep::Ended(Ok(changed)), ..e }) && act is Finished
}

/// The edit failed with that message.
pub open spec fn edit_fails(e: Edit, f: Edit, act: FileAction, message: Seq<char>) -> bool {
    &&& f == (Edit { step: f.step, ..e })
    &&& f.step matches EditStep::Ended(r) && (r matches Err(m) && m@ == message)
    &&& act is Finished
}

/// One step of an edit.
pub open spec fn edit_step(e: Edit, ev: FileEvent, f: Edit, act: FileAction) -> bool {
    match (e.step, ev) {
        (EditStep::Ready, FileEvent::Begin) => match e.plan {
            EditPlan::Refused(m) => edit_fails(e, f, act, m@),
            EditPlan::Unchanged => edit_ends(e, f, act, false),
            EditPlan::Make { target, .. } => {
                &&& f == (Edit { step: EditStep::Making, ..e })
                &&& act matches FileAction::CreateDir { path } && path == target
            },
            EditPlan::Rename { src, dst, check, .. } => if check {
                &&& f == (Edit { step: EditStep::Checking, ..e })
                &&& act matches FileAction::IsTaken { path } && path == dst
            } else {
                &&& f == (Edit { step: EditStep::Renaming, ..e })
                &&& act matches FileAction::Rename { from, to } && from == src && to == dst
            },
        },
        (EditStep::Checking, FileEvent::Answer(taken)) => if taken {
            edit_fails(e, f, act, "An item with that name already exists."@)
        } else {
            &&& f == (Edit { step: EditStep::Renaming, ..e })
            &&& act matches FileAction::Rename { from, to } && from == e.plan->Rename_src && to == e.plan->Rename_dst
        },
        (EditStep::Making, FileEvent::Did(r)) => match r {
            Ok(_) => edit_ends(e, f, act, true),
            Err(x) => edit_fails(e, f, act, "Couldn't create the folder: "@ + x.message@),
        },
        (EditStep::Renaming, FileEvent::Did(r)) => match r {
            Ok(_) => edit_ends(e, f, act, true),
            Err(x) => edit_fails(e, f, act, "Couldn't rename: "@ + x.message@),
        },
        _ => false,
    }
}

impl Edit {
    /// The edit of a plan, about to begin.
    pub fn new(plan: EditPlan) -> (r: Edit)
        ensures
            r == (Edit { plan, step: EditStep::Ready }),
            edit_ok(r),
    {
        Edit { plan, step: EditStep::Ready }
    }

    fn fail(&mut self, message: String) -> (r: FileAction)
        ensures
            edit_fails(*old(self), *final(self), r, message@),
    {
        self.step = EditStep::Ended(Err(message));
        FileAction::Finished
    }

    fn end(&mut self, changed: bool) -> (r: FileAction)
        ensures
            edit_ends(*old(self), *final(self), r, changed),
    {
        self.step = EditStep::Ended(Ok(changed));
        FileAction::Finished
    }

    fn rename(&mut self) -> (r: FileAction)
        requires
            old(self).plan is Rename,
        ensures
            *final(self) == (Edit { step: EditStep::Renaming, ..*old(self) }),
            r matches FileAction::Rename { from, to } && from == old(self).plan->Rename_src && to == old(
                self,
            ).plan->Rename_dst,
    {
        let act = match &self.plan {
            EditPlan::Rename { src, dst, .. } => FileAction::Rename { from: src.clone(), to: dst.clone() },
            _ => FileAction::Finished,
        };
        self.step = EditStep::Renaming;
        act
    }

    fn begin(&mut self) -> (r: FileAction)
        requires
            old(self).step is Ready,
        ensures
            edit_step(*old(self), FileEvent::Begin, *final(self), r),
            edit_ok(*final(self)),
            final(self).step is Ended <==> r is Finished,
    {
        match &self.plan {
            EditPlan::Refused(m) => {
                let m = m.clone();
                self.fail(m)
            },
            EditPlan::Unchanged => self.end(false),
            EditPlan::Make { target, .. } => {
                let act = FileAction::CreateDir { path: target.clone() };
                self.step = EditStep::Making;
                act
            },
            EditPlan::Rename { dst, check, .. } => {
                if *check {
                    let act = FileAction::IsTaken { path: dst.clone() };
                    self.step = EditStep::Checking;
                    act
                } else {
                    self.rename()
                }
            },
        }
    }

    /// Takes how the last action went and says what comes next.
    pub fn next(&mut self, event: FileEvent) -> (r: FileAction)
        requires
            edit_ok(*old(self)),
            edit_awaits(old(self).step, event),
        ensures
            edit_step(*old(self), event, *final(self), r),
            edit_ok(*final(self)),
            final(self).step is Ended <==> r is Finished,
    {
        match event {
            FileEvent::Begin => self.begin(),
            FileEvent::Answer(taken) => {
                if taken {
                    self.fail("An item with that name already exists.".to_owned())
                } else {
                    self.rename()
                }
            },
            FileEvent::Did(r) => {
                let making = matches!(self.step, EditStep::Making);
                match r {
                    Ok(_) => self.end(true),
                    Err(f) => {
                        let lead = if making {
                            "Couldn't create the folder: "
                        } else {
                            "Couldn't rename: "
                        };
                        self.fail(cat(lead, f.message.as_str()))
                    },
                }
            },
            _ => FileAction::Finished,
        }
    }
}

/// What undoes an edit that was made.
pub open spec fn undoes(plan: EditPlan, e: UndoEntry) -> bool {
    match plan {
        EditPlan::Make { target, .. } => e.op == (UndoOp::RemoveDir { path: target }) && e.label@ == "new folder"@,
        EditPlan::Rename { src, dst, .. } => e.op == (UndoOp::Rename { from: dst, to: src }) && e.label@ == "rename"@,
        _ => false,
    }
}

/// What undoes an edit that was made.
pub fn undo_of(plan: &EditPlan) -> (r: Option<UndoEntry>)
    ensures
        match r {
            Some(e) => undoes(*plan, e),
            None => plan is Refused || plan is Unchanged,
        },
{
    match plan {
        EditPlan::Make { target, .. } => Some(
            UndoEntry::new(UndoOp::RemoveDir { path: target.clone() }, "new folder"),
        ),
        EditPlan::Rename { src, dst, .. } => Some(
            UndoEntry::new(UndoOp::Rename { from: dst.clone(), to: src.clone() }, "rename"),
        ),
        _ => None,
    }
}

/// A rename never replaces what has the new name: it is made only where nothing
/// was found there, or where the names differ in case only.
pub proof fn law_rename_replaces_nothing(e: Edit, ev: FileEvent, f: Edit, act: FileAction)
    requires
        edit_ok(e),
        edit_step(e, ev, f, act),
        act is Rename,
    ensures
        e.plan is Rename,
        ev == FileEvent::Answer(false) || !e.plan->check,
{
}

/// A refused or unchanged name touches no file.
pub proof fn law_refused_name_touches_nothing(e: Edit, ev: FileEvent, f: Edit, act: FileAction)
    requires
        edit_ok(e),
        e.plan is Refused || e.plan is Unchanged,
        edit_step(e, ev, f, act),
    ensures
        act is Finished,
{
}

/// A new folder is made in the folder that is shown, under the typed name without
/// the white space around it, and only where that name is right and free.
pub proof fn law_new_folder_is_made_here(p: Pane, prompt: NamePrompt, plan: EditPlan)
    requires
        plans(p, prompt, plan),
        prompt.kind is NewFolder,
    ensures
        plan is Make || plan is Refused,
        plan matches EditPlan::Make { target, name } ==> {
            &&& name@ == text::trim(prompt.buf@)
            &&& target@ == paths::join_spec(p.style, p.current_dir@, name@)
            &&& names::name_error(name@) is None
            &&& forall|i: int|
                0 <= i < p.all_entries@.len() ==> text::lower_text((#[trigger] p.all_entries@[i]).name@) != text::lower_text(
                    name@,
                )
        },
{
    if let EditPlan::Make { target, name } = plan {
        assert(!pane::clashes(p.all_entries@, name@, None));
        assert forall|i: int| 0 <= i < p.all_entries@.len() implies text::lower_text((#[trigger] p.all_entries@[i]).name@)
            != text::lower_text(name@) by {}
    }
}

/// A rename takes the entry that was asked about to the typed name in the same
/// folder, and is asked whether that is taken unless the names differ in case only;
/// no other entry may have the name.
pub proof fn law_rename_stays_in_its_folder(p: Pane, prompt: NamePrompt, plan: EditPlan, orig: String)
    requires
        plans(p, prompt, plan),
        prompt.kind == (PromptKind::Rename { orig }),
    ensures
        !(plan is Make),
        plan matches EditPlan::Rename { src, dst, name, check } ==> {
            &&& name@ == text::trim(prompt.buf@) && name@ != orig@
            &&& src@ == paths::join_spec(p.style, p.current_dir@, orig@)
            &&& dst@ == paths::join_spec(p.style, p.current_dir@, name@)
            &&& names::name_error(name@) is None
            &&& check <==> text::lower_text(name@) != text::lower_text(orig@)
            &&& text::lower_text(name@) != text::lower_text(orig@) ==> forall|i: int|
                0 <= i < p.all_entries@.len() ==> text::lower_text((#[trigger] p.all_entries@[i]).name@) != text::lower_text(
                    name@,
                )
        },
        text::trim(prompt.buf@) == orig@ && names::name_error(orig@) is None ==> plan is Unchanged,
{
    if let EditPlan::Rename { src, dst, name, check } = plan {
        assert(!pane::clashes(p.all_entries@, name@, Some(orig@)));
        if text::lower_text(name@) != text::lower_text(orig@) {
            assert forall|i: int| 0 <= i < p.all_entries@.len() implies text::lower_text(
                (#[trigger] p.all_entries@[i]).name@,
            ) != text::lower_text(name@) by {}
        }
    }
    if text::trim(prompt.buf@) == orig@ {
        assert(!pane::clashes(p.all_entries@, orig@, Some(orig@)));
    }
}

/// Undoing a rename renames back, and undoing a new folder removes that folder,
/// only while it is empty.
pub proof fn law_edits_are_undone(plan: EditPlan, e: UndoEntry)
    requires
        undoes(plan, e),
    ensures
        plan matches EditPlan::Rename { src, dst, .. } ==> (e.op matches UndoOp::Rename { from, to } && from@ == dst@ && to@
            == src@),
        plan matches EditPlan::Make { target, .. } ==> (e.op matches UndoOp::RemoveDir { path } && path@ == target@),
{
}

/// What is selected at first in the dialog of a rename is the name up to its last
/// dot, so that the extension stays; a name without a dot, or with one at its start
/// alone, is selected as a whole.
pub proof fn law_extension_is_kept(orig: String, buf: Seq<char>, dot: int)
    requires
        0 <= dot < buf.len(),
        buf[dot] == '.',
        forall|i: int| dot < i < buf.len() ==> buf[i] != '.',
    ensures
        dot > 0 ==> preselected(PromptKind::Rename { orig }, buf) == dot,
        dot == 0 ==> preselected(PromptKind::Rename { orig }, buf) == buf.len(),
        preselected(PromptKind::NewFolder, buf) == buf.len(),
{
    lemma_last_dot(buf, dot);
}

proof fn lemma_last_dot(s: Seq<char>, dot: int)
    requires
        0 <= dot < s.len(),
        s[dot] == '.',
        forall|i: int| dot < i < s.len() ==> s[i] != '.',
    ensures
        paths::last_dot(s) == dot,
    decreases s.len(),
{
    if dot < s.len() - 1 {
        lemma_last_dot(s.drop_last(), dot);
    }
}

} // verus!
