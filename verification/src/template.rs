//! Templates, and the files that they instantiate in the system.
//!
//! Templates replicate the tree of the root file system, so the template in
//! `/usr/share/detc/templates.d/etc/ssh/ssh.conf` instantiates
//! `/etc/ssh/ssh.conf`.  The path inside the tree is the identity of the
//! template.

use std::error::Error;

use vstd::prelude::*;

use crate::document;
use crate::path;
use crate::provider::said;
use crate::text;
use crate::value::{Datum, Json};

verus! {

/// Name of the templates tree, searched in the default prefixes.
pub const TEMPLATES_NAME: &'static str = "detc/templates";

/// Why a document cannot be expanded: what kind of failure it is and its
/// detail, the bytes of the expression that failed and its line, and the
/// causes.
pub struct Failure {
    pub kind: String,
    pub detail: Option<String>,
    pub range: Option<(usize, usize)>,
    pub line: Option<usize>,
    pub causes: Vec<String>,
}

/// Why a document cannot be expanded, as plain values.
pub struct Fault {
    pub kind: Seq<char>,
    pub detail: Option<Seq<char>>,
    pub range: Option<(usize, usize)>,
    pub line: Option<usize>,
    pub causes: Seq<Seq<char>>,
}

impl View for Failure {
    type V = Fault;

    open spec fn view(&self) -> Fault {
        Fault {
            kind: self.kind@,
            detail: text::text_of(self.detail),
            range: self.range,
            line: self.line,
            causes: text::texts(self.causes@),
        }
    }
}

/// An expansion, as plain values.
pub open spec fn expansion(r: Result<String, Failure>) -> Result<Seq<char>, Fault> {
    match r {
        Ok(t) => Ok(t@),
        Err(e) => Err(e@),
    }
}

/// What `minijinja` makes of a template with a context, by the name of the
/// template, when the last newline is kept and an undefined variable is an
/// error.
pub uninterp spec fn expanded(name: Seq<char>, content: Seq<char>, context: Json) -> Result<
    Seq<char>,
    Fault,
>;

/// `minijinja` expands a template, keeping its last newline and taking a
/// variable that is not there for an error.
#[verifier::external_body]
fn expand(name: &str, content: &str, context: &serde_json::Value) -> (r: Result<String, Failure>)
    ensures
        expansion(r) == expanded(name@, content@, document::contents(*context)),
{
    let mut env = minijinja::Environment::new();
    env.set_keep_trailing_newline(true);
    env.set_undefined_behavior(minijinja::UndefinedBehavior::Strict);
    let added = env.add_template(name, content);
    added.and_then(|_| env.get_template(name)?.render(context)).map_err(|e| Failure {
        kind: e.kind().to_string(),
        detail: e.detail().map(String::from),
        range: e.range().map(|range| (range.start, range.end)),
        line: e.line(),
        causes: std::iter::successors(e.source(), |e| (*e).source()).map(|e| e.to_string()).collect(),
    })
}

/// Causes, each behind the one before.
pub open spec fn chain(causes: Seq<Seq<char>>) -> Seq<char>
    decreases causes.len(),
{
    if causes.len() == 0 {
        Seq::empty()
    } else {
        chain(causes.drop_last()) + ": "@ + causes.last()
    }
}

/// The message for a document that cannot be expanded: what is not produced,
/// the expression that failed, where it is, and the causes.
pub open spec fn render_message(
    subject: Seq<char>,
    source: Seq<char>,
    content: Seq<char>,
    fault: Fault,
) -> Seq<char> {
    let head = "Cannot render "@ + subject + ": "@ + fault.kind;
    let detailed = match fault.detail {
        Some(detail) => head + ": "@ + detail,
        None => head,
    };
    let expressed = match fault.range {
        Some((from, to)) => match text::slice(content, from as nat, to as nat) {
            Some(expression) => detailed + " `"@ + expression + "`"@,
            None => detailed,
        },
        None => detailed,
    };
    let placed = expressed + " (in "@ + source;
    let lined = match fault.line {
        Some(line) => placed + ":"@ + text::decimal(line as nat),
        None => placed,
    };
    lined + ")"@ + chain(fault.causes)
}

/// A document that was expanded, or the message that says why it cannot be.
pub open spec fn rendering(
    subject: Seq<char>,
    source: Seq<char>,
    content: Seq<char>,
    expansion: Result<Seq<char>, Fault>,
) -> Result<Seq<char>, Seq<char>> {
    match expansion {
        Ok(t) => Ok(t),
        Err(fault) => Err(render_message(subject, source, content, fault)),
    }
}

/// Describe why a document cannot be expanded.
fn render_error(subject: &str, source: &str, content: &str, failure: &Failure) -> (r: String)
    ensures
        r@ == render_message(subject@, source@, content@, failure@),
{
    let mut message = "Cannot render ".to_owned();
    message.append(subject);
    message.append(": ");
    message.append(failure.kind.as_str());
    if let Some(detail) = &failure.detail {
        message.append(": ");
        message.append(detail.as_str());
    }
    if let Some((from, to)) = failure.range {
        if let Some(expression) = text::part(content, from, to) {
            message.append(" `");
            message.append(expression);
            message.append("`");
        }
    }
    message.append(" (in ");
    message.append(source);
    if let Some(line) = failure.line {
        message.append(":");
        message.append(text::decimal_of(line as u64).as_str());
    }
    message.append(")");
    let ghost told = message@;
    let ghost causes = text::texts(failure.causes@);
    let mut i: usize = 0;
    assert(message@ =~= told + chain(causes.take(0)));
    while i < failure.causes.len()
        invariant
            i <= failure.causes@.len(),
            causes == text::texts(failure.causes@),
            message@ == told + chain(causes.take(i as int)),
        decreases failure.causes@.len() - i,
    {
        proof {
            assert(causes.take(i + 1).drop_last() =~= causes.take(i as int));
            assert(causes.take(i + 1).last() == failure.causes@[i as int]@);
        }
        message.append(": ");
        message.append(failure.causes[i].as_str());
        assert(message@ =~= told + chain(causes.take(i + 1)));
        i += 1;
    }
    assert(causes.take(i as int) =~= causes);
    message
}

/// A document that was expanded, or the message that says why it cannot be.
pub fn report(
    subject: &str,
    source: &str,
    content: &str,
    expansion_result: Result<String, Failure>,
) -> (r: Result<String, String>)
    ensures
        said(r) == rendering(subject@, source@, content@, expansion(expansion_result)),
{
    match expansion_result {
        Ok(t) => Ok(t),
        Err(failure) => Err(render_error(subject, source, content, &failure)),
    }
}

/// Expand a document with the variables of a context.
///
/// This is how every object of the system reaches the namespace, so a resource
/// declaration is expanded with the same strictness, and reports the same kind
/// of error, as the template of a configuration file.  `subject` names what
/// cannot be produced, and `source` is the file that the content was read
/// from.
pub fn render(subject: &str, source: &str, content: &str, context: &Datum) -> (r: Result<
    String,
    String,
>)
    ensures
        said(r) == rendering(subject@, source@, content@, expanded(source@, content@, context@)),
{
    let context = document::write_value(context);
    report(subject, source, content, expand(source, content, &context))
}

/// A template, and the file that it instantiates in the system.
pub struct Template {
    source: String,
    target: String,
}

/// A template, as plain values.
pub struct Sheet {
    pub source: Seq<char>,
    pub target: Seq<char>,
}

impl View for Template {
    type V = Sheet;

    closed spec fn view(&self) -> Sheet {
        Sheet { source: self.source@, target: self.target@ }
    }
}

/// The content of a file, or the complaint that it cannot be read.
pub open spec fn content_of(
    what: Seq<char>,
    source: Seq<char>,
    read: Result<Seq<char>, Seq<char>>,
) -> Result<Seq<char>, Seq<char>> {
    match read {
        Ok(t) => Ok(t),
        Err(e) => Err("Cannot read "@ + what + " "@ + source + ": "@ + e),
    }
}

/// The content of a file, or the complaint that it cannot be read.
pub fn content(what: &str, source: &str, read: Result<String, String>) -> (r: Result<String, String>)
    ensures
        said(r) == content_of(what@, source@, said(read)),
{
    match read {
        Ok(t) => Ok(t),
        Err(why) => {
            let mut e = "Cannot read ".to_owned();
            e.append(what);
            e.append(" ");
            e.append(source);
            e.append(": ");
            e.append(why.as_str());
            Err(e)
        },
    }
}

/// What a template instantiates, by what was read of it.
pub open spec fn instance(
    sheet: Sheet,
    read: Result<Seq<char>, Seq<char>>,
    context: Json,
) -> Result<Seq<char>, Seq<char>> {
    match content_of("template"@, sheet.source, read) {
        Err(e) => Err(e),
        Ok(content) => rendering(
            sheet.target,
            sheet.source,
            content,
            expanded(sheet.source, content, context),
        ),
    }
}

impl Template {
    /// A template, and the file that it instantiates in the system.
    pub fn new(source: &str, target: &str) -> (r: Self)
        ensures
            r@ == (Sheet { source: source@, target: target@ }),
    {
        Template { source: source.to_owned(), target: target.to_owned() }
    }

    /// Path of the template file.
    pub fn source(&self) -> (r: &str)
        ensures
            r@ == self@.source,
    {
        self.source.as_str()
    }

    /// Path of the file that the template instantiates.
    pub fn target(&self) -> (r: &str)
        ensures
            r@ == self@.target,
    {
        self.target.as_str()
    }

    /// The content of the template, by what was read of its file.
    pub fn content(&self, read: Result<String, String>) -> (r: Result<String, String>)
        ensures
            said(r) == content_of("template"@, self@.source, said(read)),
    {
        content("template", self.source.as_str(), read)
    }

    /// Instantiate the template with the variables of a context.
    pub fn render(&self, read: Result<String, String>, context: &Datum) -> (r: Result<
        String,
        String,
    >)
        ensures
            said(r) == instance(self@, said(read), context@),
    {
        match self.content(read) {
            Err(e) => Err(e),
            Ok(content) => render(
                self.target.as_str(),
                self.source.as_str(),
                content.as_str(),
                context,
            ),
        }
    }

    /// Check if the template can be instantiated, discarding the result.
    pub fn check(&self, read: Result<String, String>, context: &Datum) -> (r: Result<(), String>)
        ensures
            match r {
                Ok(_) => instance(self@, said(read), context@) is Ok,
                Err(e) => instance(self@, said(read), context@) == Err::<Seq<char>, Seq<char>>(e@),
            },
    {
        match self.render(read, context) {
            Ok(_) => Ok(()),
            Err(e) => Err(e),
        }
    }
}

/// Templates, as plain values.
pub open spec fn sheets(s: Seq<Template>) -> Seq<Sheet> {
    Seq::new(s.len(), |i: int| s[i]@)
}

/// The templates that files are: each instantiates the file that its key
/// addresses below the root.  The main file has no key, and is no template.
pub open spec fn resolved(root: Seq<char>, entries: Seq<(String, String)>) -> Seq<Sheet>
    decreases entries.len(),
{
    if entries.len() == 0 {
        Seq::empty()
    } else {
        let before = resolved(root, entries.drop_last());
        let entry = entries.last();
        if entry.0@.len() == 0 {
            before
        } else {
            before.push(Sheet { source: entry.1@, target: path::joined(root, entry.0@) })
        }
    }
}

/// The path that a target has below a root.
pub open spec fn rooted(root: Seq<char>, target: Seq<char>) -> Seq<char> {
    path::joined(
        root,
        match path::below(target, "/"@) {
            Some(rest) => rest,
            None => target,
        },
    )
}

/// Whether a template instantiates a target, by the path that it has in the
/// root file system or in the current system.
pub open spec fn instantiates(root: Seq<char>, sheet: Sheet, target: Seq<char>) -> bool {
    path::same_route(sheet.target, target) || path::same_route(sheet.target, rooted(root, target))
}

/// Whether the template at `i` is the first that instantiates a target.
pub open spec fn answers(root: Seq<char>, all: Seq<Sheet>, target: Seq<char>, i: int) -> bool {
    &&& 0 <= i < all.len()
    &&& instantiates(root, all[i], target)
    &&& forall|j: int| 0 <= j < i ==> !instantiates(root, #[trigger] all[j], target)
}

/// Templates available in the system.
pub struct Templates {
    root: String,
    templates: Vec<Template>,
}

/// Templates and the root that they are below, as plain values.
pub struct Tree {
    pub root: Seq<char>,
    pub templates: Seq<Sheet>,
}

impl View for Templates {
    type V = Tree;

    closed spec fn view(&self) -> Tree {
        Tree { root: self.root@, templates: sheets(self.templates@) }
    }
}

impl Templates {
    /// The templates that the files of the templates tree are, in the order of
    /// the files.
    pub fn from_system(root: &str, entries: &Vec<(String, String)>) -> (r: Self)
        ensures
            r@ == (Tree { root: root@, templates: resolved(root@, entries@) }),
    {
        let mut templates: Vec<Template> = Vec::new();
        let mut i: usize = 0;
        assert(sheets(templates@) =~= resolved(root@, entries@.take(0)));
        while i < entries.len()
            invariant
                i <= entries@.len(),
                sheets(templates@) == resolved(root@, entries@.take(i as int)),
            decreases entries@.len() - i,
        {
            assert(entries@.take(i + 1).drop_last() =~= entries@.take(i as int));
            if !entries[i].0.as_str().is_empty() {
                let ghost was = templates@;
                let target = path::join(root, entries[i].0.as_str());
                let template = Template::new(entries[i].1.as_str(), target.as_str());
                let ghost sheet = template@;
                templates.push(template);
                assert(sheets(templates@) =~= sheets(was).push(sheet));
            }
            i += 1;
        }
        assert(entries@.take(i as int) =~= entries@);
        Templates { root: root.to_owned(), templates }
    }

    /// The resolved templates.
    pub fn templates(&self) -> (r: &Vec<Template>)
        ensures
            sheets(r@) == self@.templates,
    {
        &self.templates
    }

    /// The template that instantiates a target, if there is one.
    pub fn get(&self, target: &str) -> (r: Option<&Template>)
        ensures
            match r {
                Some(t) => exists|i: int|
                    answers(self@.root, self@.templates, target@, i) && #[trigger] self@.templates[i]
                        == t@,
                None => forall|i: int|
                    0 <= i < self@.templates.len() ==> !instantiates(
                        self@.root,
                        #[trigger] self@.templates[i],
                        target@,
                    ),
            },
    {
        let below = match path::strip(target, "/") {
            Some(rest) => rest,
            None => target.to_owned(),
        };
        let there = path::join(self.root.as_str(), below.as_str());
        let mut i: usize = 0;
        while i < self.templates.len()
            invariant
                i <= self.templates@.len(),
                there@ == rooted(self@.root, target@),
                self@.templates == sheets(self.templates@),
                forall|j: int|
                    0 <= j < i ==> !instantiates(
                        self@.root,
                        #[trigger] self@.templates[j],
                        target@,
                    ),
            decreases self.templates@.len() - i,
        {
            let template = &self.templates[i];
            assert(self@.templates[i as int] == template@);
            if path::same(template.target(), target) || path::same(
                template.target(),
                there.as_str(),
            ) {
                assert(answers(self@.root, self@.templates, target@, i as int));
                return Some(template);
            }
            i += 1;
        }
        None
    }

    /// Find the template that instantiates a target, and report that there is
    /// none when there is none.
    pub fn find(&self, target: &str) -> (r: Result<&Template, String>)
        ensures
            match r {
                Ok(t) => exists|i: int|
                    answers(self@.root, self@.templates, target@, i) && #[trigger] self@.templates[i]
                        == t@,
                Err(e) => e@ == "There is no template for "@ + target@ && forall|i: int|
                    0 <= i < self@.templates.len() ==> !instantiates(
                        self@.root,
                        #[trigger] self@.templates[i],
                        target@,
                    ),
            },
    {
        match self.get(target) {
            Some(template) => Ok(template),
            None => {
                let mut e = "There is no template for ".to_owned();
                e.append(target);
                Err(e)
            },
        }
    }
}

/// What a template makes is what it expands to, with the namespace that it is
/// given; a template that cannot be read, or that does not expand, makes
/// nothing.
pub proof fn law_a_template_makes_its_expansion(sheet: Sheet, content: Seq<char>, context: Json)
    ensures
        expanded(sheet.source, content, context) matches Ok(t) ==> instance(sheet, Ok(content), context)
            == Ok::<Seq<char>, Seq<char>>(t),
        expanded(sheet.source, content, context) is Err ==> instance(sheet, Ok(content), context) is Err,
        forall|e: Seq<char>| (#[trigger] instance(sheet, Err(e), context)) is Err,
{
}

/// Every file of the tree but the main one is a template for the file of the
/// same path below the root, in the order of the tree.
pub proof fn law_a_template_is_for_the_file_of_its_path(
    root: Seq<char>,
    entries: Seq<(String, String)>,
    more: (String, String),
)
    ensures
        resolved(root, Seq::empty()).len() == 0,
        more.0@.len() == 0 ==> resolved(root, entries.push(more)) == resolved(root, entries),
        more.0@.len() > 0 ==> {
            &&& resolved(root, entries.push(more)).len() == resolved(root, entries).len() + 1
            &&& resolved(root, entries.push(more)).drop_last() == resolved(root, entries)
            &&& resolved(root, entries.push(more)).last().source == more.1@
            &&& resolved(root, entries.push(more)).last().target == path::joined(root, more.0@)
        },
{
    assert(entries.push(more).drop_last() =~= entries);
    if more.0@.len() > 0 {
        assert(resolved(root, entries.push(more)).drop_last() =~= resolved(root, entries));
    }
}

/// A template is found by the path of its file, and by that path as the
/// current system has it, without the root.
pub proof fn law_a_template_is_found_by_either_path(
    root: Seq<char>,
    source: Seq<char>,
    rest: Seq<char>,
)
    requires
        root.len() > 0,
        path::is_plain(rest),
    ensures
        ({
            let sheet = Sheet { source, target: path::joined(root, rest) };
            &&& instantiates(root, sheet, path::joined(root, rest))
            &&& instantiates(root, sheet, rest)
            &&& instantiates(root, sheet, seq!['/'] + rest)
        }),
{
    path::law_what_is_joined_is_found_below(root, rest);
    reveal_strlit("/");
    assert("/"@ =~= seq!['/']);
    let slash = seq!['/'];
    path::law_what_is_joined_is_found_below(slash, rest);
    assert(path::joined(slash, rest) == slash + rest);
    assert(path::below(slash + rest, slash) == Some(rest));
    let sheet = Sheet { source, target: path::joined(root, rest) };
    match path::below(rest, "/"@) {
        Some(t) => {
            text::lemma_split_some(rest, '/');
            assert(text::split(rest, '/')[0].len() > 0);
            assert(!path::is_rooted(rest));
        },
        None => {},
    }
}

/// The first template for a target answers for it.
pub proof fn law_the_first_template_answers(
    root: Seq<char>,
    all: Seq<Sheet>,
    target: Seq<char>,
    i: int,
    j: int,
)
    requires
        answers(root, all, target, i),
        answers(root, all, target, j),
    ensures
        i == j,
        path::same_route(all[i].target, target) || path::same_route(
            all[i].target,
            rooted(root, target),
        ),
{
}

/// A file that cannot be read is an error that names it, and one that can be
/// is its text.
pub proof fn law_a_file_is_its_text(what: Seq<char>, source: Seq<char>, t: Seq<char>)
    ensures
        content_of(what, source, Ok(t)) == Ok::<Seq<char>, Seq<char>>(t),
        content_of(what, source, Err(t)) == Err::<Seq<char>, Seq<char>>(
            "Cannot read "@ + what + " "@ + source + ": "@ + t,
        ),
{
}

/// A rendering that fails says what it is of, what went wrong, the expression
/// that it went wrong at, the file and its line, and then every cause.
pub proof fn law_a_failed_rendering_says_where(
    subject: Seq<char>,
    source: Seq<char>,
    content: Seq<char>,
    kind: Seq<char>,
    detail: Seq<char>,
    from: usize,
    to: usize,
    line: usize,
    causes: Seq<Seq<char>>,
    cause: Seq<char>,
)
    ensures
        render_message(
            subject,
            source,
            content,
            Fault { kind, detail: None, range: None, line: None, causes: Seq::empty() },
        ) == "Cannot render "@ + subject + ": "@ + kind + " (in "@ + source + ")"@,
        text::slice(content, from as nat, to as nat) matches Some(expression) ==> render_message(
            subject,
            source,
            content,
            Fault { kind, detail: Some(detail), range: Some((from, to)), line: Some(line), causes },
        ) == "Cannot render "@ + subject + ": "@ + kind + ": "@ + detail + " `"@ + expression + "`"@
            + " (in "@ + source + ":"@ + text::decimal(line as nat) + ")"@ + chain(causes),
        chain(Seq::empty()).len() == 0,
        chain(causes.push(cause)) == chain(causes) + ": "@ + cause,
{
    assert(causes.push(cause).drop_last() =~= causes);
    let plain = "Cannot render "@ + subject + ": "@ + kind + " (in "@ + source + ")"@;
    assert(plain + Seq::<char>::empty() =~= plain);
}

} // verus!
