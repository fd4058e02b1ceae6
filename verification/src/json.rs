//! The rewrite of a chat completion in JSON.

use serde_json::Value;
use vstd::prelude::*;

use crate::config::ReplacementConfig;
use crate::pattern;
use crate::replacer;
use crate::replacer::PatternReplacer;
use crate::text;

verus! {

/// The content of a JSON value.
pub enum JsonTree {
    Null,
    Bool(bool),
    /// A number, as it is written.
    Number(Seq<char>),
    Text(Seq<char>),
    Array(Seq<JsonTree>),
    Object(Map<Seq<char>, JsonTree>),
}

/// `serde_json::Value`, a JSON value.
#[verifier::external_type_specification]
#[verifier::external_body]
pub struct ExValue(Value);

/// `serde_json::Error`, what goes wrong when JSON is read or written.
#[verifier::external_type_specification]
#[verifier::external_body]
pub struct ExJsonError(serde_json::Error);

/// What a JSON value holds.
pub uninterp spec fn json_tree(value: Value) -> JsonTree;

/// What a text is parsed as, if it is JSON.
pub uninterp spec fn parsed_json(bytes: Seq<u8>) -> Option<JsonTree>;

/// How a JSON value is written.
pub uninterp spec fn printed_json(tree: JsonTree) -> Seq<u8>;

/// What each of `values` holds.
pub open spec fn json_trees(values: Seq<Value>) -> Seq<JsonTree> {
    values.map_values(|value: Value| json_tree(value))
}

/// The tokens of a JSON pointer: what follows each of its slashes.
pub open spec fn pointer_tokens(pointer: Seq<char>) -> Seq<Seq<char>>
    decreases pointer.len(),
{
    if pointer.len() == 0 {
        seq![]
    } else {
        proof {
            text::lemma_head_until_len(pointer.skip(1), seq!['/']);
        }
        let token = text::head_until(pointer.skip(1), seq!['/']);
        seq![token] + pointer_tokens(pointer.skip(1 + token.len() as int))
    }
}

/// Whether a JSON pointer names members alone: it begins with a slash, escapes
/// nothing, and holds no digit that could be an index.
pub open spec fn is_member_pointer(pointer: Seq<char>) -> bool {
    &&& pointer.len() > 0 && pointer[0] == '/'
    &&& forall|i: int|
        0 <= i < pointer.len() ==> #[trigger] pointer[i] != '~' && !('0' <= pointer[i] <= '9')
}

/// What stands in `tree` at the end of `path`, from member to member.
pub open spec fn at_path(tree: JsonTree, path: Seq<Seq<char>>) -> Option<JsonTree>
    decreases path.len(),
{
    if path.len() == 0 {
        Some(tree)
    } else {
        match tree {
            JsonTree::Object(members) => if members.contains_key(path[0]) {
                at_path(members[path[0]], path.skip(1))
            } else {
                None
            },
            _ => None,
        }
    }
}

/// `tree` with `new` at the end of `path`.
pub open spec fn put_at_path(tree: JsonTree, path: Seq<Seq<char>>, new: JsonTree) -> JsonTree
    decreases path.len(),
{
    if path.len() == 0 {
        new
    } else {
        match tree {
            JsonTree::Object(members) => JsonTree::Object(
                members.insert(path[0], put_at_path(members[path[0]], path.skip(1), new)),
            ),
            _ => tree,
        }
    }
}

/// How deep arrays and objects may nest in JSON that is read.
pub const MAX_NESTING: usize = 127;

/// `serde_json::from_slice` reads JSON. What it accepts, and as what, is a
/// function of the bytes.
#[verifier::external_body]
fn parse_json(bytes: &[u8]) -> (value: Option<Value>)
    ensures
        value is Some <==> parsed_json(bytes@) is Some,
        value matches Some(v) ==> parsed_json(bytes@) == Some(json_tree(v)),
{
    serde_json::from_slice(bytes).ok()
}

/// Whether `tree` is read back as it was written: its numbers are whole, and
/// its arrays and objects nest no deeper than `levels`.
pub open spec fn reads_back(tree: JsonTree, levels: nat) -> bool
    decreases levels,
{
    match tree {
        JsonTree::Number(written) => !written.contains('.') && !written.contains('e'),
        JsonTree::Array(items) => levels > 0 && forall|i: int|
            0 <= i < items.len() ==> reads_back(#[trigger] items[i], (levels - 1) as nat),
        JsonTree::Object(members) => levels > 0 && forall|name: Seq<char>|
            members.contains_key(name) ==> reads_back(
                #[trigger] members[name],
                (levels - 1) as nat,
            ),
        _ => true,
    }
}

/// `serde_json::to_vec` writes JSON. It does not fail on a JSON value, whose
/// names are strings and whose numbers are finite. What it writes is a function
/// of what the value holds: the members of an object come in the order of their
/// names. It is read back as the same value where the numbers are whole and
/// nothing nests deeper than the reader follows. A number with a fraction may be
/// read back as a neighbour.
#[verifier::external_body]
fn print_json(value: &Value) -> (bytes: Result<Vec<u8>, serde_json::Error>)
    ensures
        bytes is Ok,
        bytes matches Ok(b) ==> b@ == printed_json(json_tree(*value)),
        bytes matches Ok(b) ==> (reads_back(json_tree(*value), MAX_NESTING as nat)
            ==> parsed_json(b@) == Some(json_tree(*value))),
{
    serde_json::to_vec(value)
}

/// `Value::get_mut` gives access to a member of an object. On anything else
/// than an object, and for a name that the object does not have, it gives nothing.
#[verifier::external_body]
fn member_mut<'a>(value: &'a mut Value, name: &str) -> (member: Option<&'a mut Value>)
    ensures
        match member {
            Some(m) => {
                &&& json_tree(*old(value)) matches JsonTree::Object(members)
                &&& members.contains_key(name@)
                &&& json_tree(*m) == members[name@]
                &&& json_tree(*final(value)) == JsonTree::Object(
                    members.insert(name@, json_tree(*final(m))),
                )
            },
            None => {
                &&& !(json_tree(*old(value)) matches JsonTree::Object(members)
                    && members.contains_key(name@))
                &&& *final(value) == *old(value)
            },
        },
{
    value.get_mut(name)
}

/// `Value::as_array_mut` gives access to the elements of an array, and to
/// nothing where the value is no array.
#[verifier::external_body]
fn elements_mut(value: &mut Value) -> (elements: Option<&mut Vec<Value>>)
    ensures
        match elements {
            Some(list) => {
                &&& json_tree(*old(value)) == JsonTree::Array(json_trees(list@))
                &&& json_tree(*final(value)) == JsonTree::Array(json_trees(final(list)@))
            },
            None => {
                &&& !(json_tree(*old(value)) is Array)
                &&& *final(value) == *old(value)
            },
        },
{
    value.as_array_mut()
}

/// `Value::pointer_mut` gives access to the value to which a JSON pointer
/// leads, from member to member, and to nothing where a member is missing.
#[verifier::external_body]
fn pointer_mut<'a>(value: &'a mut Value, pointer: &str) -> (target: Option<&'a mut Value>)
    requires
        is_member_pointer(pointer@),
    ensures
        match target {
            Some(t) => {
                &&& at_path(json_tree(*old(value)), pointer_tokens(pointer@)) == Some(json_tree(*t))
                &&& json_tree(*final(value)) == put_at_path(
                    json_tree(*old(value)),
                    pointer_tokens(pointer@),
                    json_tree(*final(t)),
                )
            },
            None => {
                &&& at_path(json_tree(*old(value)), pointer_tokens(pointer@)) is None
                &&& *final(value) == *old(value)
            },
        },
{
    value.pointer_mut(pointer)
}

/// `Value::as_str` gives the text of a string, and nothing for any other value.
#[verifier::external_body]
fn text_in(value: &Value) -> (found: Option<&str>)
    ensures
        match found {
            Some(s) => json_tree(*value) == JsonTree::Text(s@),
            None => !(json_tree(*value) is Text),
        },
{
    value.as_str()
}

/// `Value::String` is the JSON string of a text.
#[verifier::external_body]
fn text_value(text: String) -> (value: Value)
    ensures
        json_tree(value) == JsonTree::Text(text@),
{
    Value::String(text)
}

/// Where the content stands in a choice.
pub open spec fn content_path() -> Seq<Seq<char>> {
    seq!["message"@, "content"@]
}

/// The content of a choice, if it is a text.
pub open spec fn content(choice: JsonTree) -> Option<Seq<char>> {
    match at_path(choice, content_path()) {
        Some(JsonTree::Text(text)) => Some(text),
        _ => None,
    }
}

/// `choice` with its content rewritten.
pub open spec fn choice_rewritten(
    cfg: ReplacementConfig,
    opened: bool,
    choice: JsonTree,
) -> JsonTree {
    match content(choice) {
        Some(text) => put_at_path(
            choice,
            content_path(),
            JsonTree::Text(replacer::rewritten(cfg, opened, text)),
        ),
        None => choice,
    }
}

/// Whether a block is open after `choice`.
pub open spec fn choice_opened(cfg: ReplacementConfig, opened: bool, choice: JsonTree) -> bool {
    match content(choice) {
        Some(text) => replacer::opened_after(cfg, opened, text),
        None => opened,
    }
}

/// Whether a block is open after `choices`, in order.
pub open spec fn choices_opened(
    cfg: ReplacementConfig,
    opened: bool,
    choices: Seq<JsonTree>,
) -> bool
    decreases choices.len(),
{
    if choices.len() == 0 {
        opened
    } else {
        choice_opened(cfg, choices_opened(cfg, opened, choices.drop_last()), choices.last())
    }
}

/// `choices` with their contents rewritten, one after the other.
pub open spec fn choices_rewritten(
    cfg: ReplacementConfig,
    opened: bool,
    choices: Seq<JsonTree>,
) -> Seq<JsonTree> {
    Seq::new(
        choices.len(),
        |i: int|
            choice_rewritten(cfg, choices_opened(cfg, opened, choices.take(i)), choices[i]),
    )
}

/// The choices of a completion, if it has them.
pub open spec fn choices_of(tree: JsonTree) -> Option<Seq<JsonTree>> {
    match tree {
        JsonTree::Object(members) => if members.contains_key("choices"@) {
            match members["choices"@] {
                JsonTree::Array(choices) => Some(choices),
                _ => None,
            }
        } else {
            None
        },
        _ => None,
    }
}

/// A completion with the contents of its choices rewritten.
pub open spec fn tree_rewritten(
    cfg: ReplacementConfig,
    opened: bool,
    tree: JsonTree,
) -> JsonTree {
    match (tree, choices_of(tree)) {
        (JsonTree::Object(members), Some(choices)) => JsonTree::Object(
            members.insert("choices"@, JsonTree::Array(choices_rewritten(cfg, opened, choices))),
        ),
        _ => tree,
    }
}

/// Whether a block is open after a completion.
pub open spec fn tree_opened(cfg: ReplacementConfig, opened: bool, tree: JsonTree) -> bool {
    match choices_of(tree) {
        Some(choices) => choices_opened(cfg, opened, choices),
        None => opened,
    }
}

proof fn lemma_content_pointer()
    ensures
        is_member_pointer("/message/content"@),
        pointer_tokens("/message/content"@) == content_path(),
{
    let pointer = "/message/content"@;
    let slash = seq!['/'];
    reveal_strlit("/message/content");
    reveal_strlit("message");
    reveal_strlit("content");
    assert(slash[0] == '/');
    let tail = pointer.skip(8);
    assert(pointer.skip(1) == "message"@ + tail);
    text::lemma_head_until("message"@, tail, slash);
    assert(tail.skip(1) == "content"@ + Seq::<char>::empty());
    text::lemma_head_until("content"@, Seq::<char>::empty(), slash);
    assert(tail.skip(8) == Seq::<char>::empty());
    assert(pointer_tokens(tail.skip(8)) == Seq::<Seq<char>>::empty());
    assert(pointer_tokens(tail) == seq!["content"@]);
    assert(pointer_tokens(pointer) == content_path());
}

proof fn lemma_put_same(tree: JsonTree, path: Seq<Seq<char>>, found: JsonTree)
    requires
        at_path(tree, path) == Some(found),
    ensures
        put_at_path(tree, path, found) == tree,
    decreases path.len(),
{
    if path.len() > 0 {
        let members = tree->Object_0;
        lemma_put_same(members[path[0]], path.skip(1), found);
        assert(members.insert(path[0], members[path[0]]) == members);
    }
}

/// Rewrites the content of a choice.
fn rewrite_choice(choice: &mut Value, replacer: &mut PatternReplacer)
    ensures
        json_tree(*final(choice)) == choice_rewritten(
            old(replacer).cfg,
            old(replacer).opened,
            json_tree(*old(choice)),
        ),
        final(replacer).opened == choice_opened(
            old(replacer).cfg,
            old(replacer).opened,
            json_tree(*old(choice)),
        ),
        final(replacer).cfg == old(replacer).cfg,
{
    proof {
        lemma_content_pointer();
    }
    let ghost before = json_tree(*choice);
    if let Some(content) = pointer_mut(choice, "/message/content") {
        proof {
            lemma_put_same(before, content_path(), json_tree(*content));
        }
        if let Some(orig) = text_in(content) {
            let rewritten = replacer.rewrite(orig);
            *content = text_value(rewritten);
        }
    }
}

/// Rewrites the contents of `choices`, one after the other.
fn rewrite_list(choices: &mut Vec<Value>, replacer: &mut PatternReplacer)
    ensures
        json_trees(final(choices)@) == choices_rewritten(
            old(replacer).cfg,
            old(replacer).opened,
            json_trees(old(choices)@),
        ),
        final(replacer).opened == choices_opened(
            old(replacer).cfg,
            old(replacer).opened,
            json_trees(old(choices)@),
        ),
        final(replacer).cfg == old(replacer).cfg,
{
    let ghost before = json_trees(choices@);
    let ghost cfg = replacer.cfg;
    let ghost opened = replacer.opened;
    let mut i: usize = 0;
    assert(before.take(0) == Seq::<JsonTree>::empty());
    while i < choices.len()
        invariant
            i <= choices@.len(),
            choices@.len() == before.len(),
            replacer.cfg == cfg,
            replacer.opened == choices_opened(cfg, opened, before.take(i as int)),
            forall|j: int|
                0 <= j < i ==> json_tree(#[trigger] choices@[j]) == choice_rewritten(
                    cfg,
                    choices_opened(cfg, opened, before.take(j)),
                    before[j],
                ),
            forall|j: int|
                i <= j < before.len() ==> json_tree(#[trigger] choices@[j]) == before[j],
        decreases choices.len() - i,
    {
        assert(before.take(i + 1).drop_last() == before.take(i as int));
        rewrite_choice(&mut choices[i], replacer);
        i = i + 1;
    }
    assert(before.take(i as int) == before);
    assert(json_trees(choices@) == choices_rewritten(cfg, opened, before));
}

/// Rewrites each `choices[*].message.content` string of a completion.
pub fn rewrite_choices(json: &mut Value, replacer: &mut PatternReplacer)
    ensures
        json_tree(*final(json)) == tree_rewritten(
            old(replacer).cfg,
            old(replacer).opened,
            json_tree(*old(json)),
        ),
        final(replacer).opened == tree_opened(
            old(replacer).cfg,
            old(replacer).opened,
            json_tree(*old(json)),
        ),
        final(replacer).cfg == old(replacer).cfg,
{
    let ghost before = json_tree(*json);
    if let Some(choices) = member_mut(json, "choices") {
        proof {
            let members = before->Object_0;
            assert(members.insert("choices"@, members["choices"@]) == members);
        }
        if let Some(list) = elements_mut(choices) {
            rewrite_list(list, replacer);
        }
    }
}

/// What is put at the end of a path stands there.
proof fn lemma_put_then_get(tree: JsonTree, path: Seq<Seq<char>>, new: JsonTree)
    requires
        at_path(tree, path) is Some,
    ensures
        at_path(put_at_path(tree, path, new), path) == Some(new),
    decreases path.len(),
{
    if path.len() > 0 {
        lemma_put_then_get(tree->Object_0[path[0]], path.skip(1), new);
    }
}

/// What is put at the end of a path changes nothing off the path.
proof fn lemma_put_elsewhere(
    tree: JsonTree,
    path: Seq<Seq<char>>,
    new: JsonTree,
    other: Seq<Seq<char>>,
    parting: int,
)
    requires
        at_path(tree, path) is Some,
        0 <= parting < path.len(),
        parting < other.len(),
        path[parting] != other[parting],
    ensures
        at_path(put_at_path(tree, path, new), other) == at_path(tree, other),
    decreases path.len(),
{
    let members = tree->Object_0;
    if path[0] == other[0] {
        lemma_put_elsewhere(
            members[path[0]],
            path.skip(1),
            new,
            other.skip(1),
            parting - 1,
        );
    }
}

/// The content of every choice is rewritten, in the state that the choices
/// before it have left.
pub proof fn law_every_content_is_rewritten(
    cfg: ReplacementConfig,
    opened: bool,
    choices: Seq<JsonTree>,
    i: int,
)
    requires
        0 <= i < choices.len(),
    ensures
        choices_rewritten(cfg, opened, choices).len() == choices.len(),
        content(choices_rewritten(cfg, opened, choices)[i]) == (match content(choices[i]) {
            Some(text) => Some(
                replacer::rewritten(cfg, choices_opened(cfg, opened, choices.take(i)), text),
            ),
            None => None,
        }),
{
    if let Some(text) = content(choices[i]) {
        lemma_put_then_get(
            choices[i],
            content_path(),
            JsonTree::Text(
                replacer::rewritten(cfg, choices_opened(cfg, opened, choices.take(i)), text),
            ),
        );
    }
}

/// Of a choice, nothing but its content changes: whatever a path leads to that
/// parts from `message`, `content` is the same before and after.
pub proof fn law_rest_of_a_choice_is_kept(
    cfg: ReplacementConfig,
    opened: bool,
    choice: JsonTree,
    path: Seq<Seq<char>>,
    parting: int,
)
    requires
        0 <= parting < 2,
        parting < path.len(),
        path[parting] != content_path()[parting],
    ensures
        at_path(choice_rewritten(cfg, opened, choice), path) == at_path(choice, path),
{
    if let Some(text) = content(choice) {
        lemma_put_elsewhere(
            choice,
            content_path(),
            JsonTree::Text(replacer::rewritten(cfg, opened, text)),
            path,
            parting,
        );
    }
}

/// Of a completion, nothing but its choices changes, and their number is kept.
pub proof fn law_rest_of_a_completion_is_kept(
    cfg: ReplacementConfig,
    opened: bool,
    tree: JsonTree,
)
    ensures
        choices_of(tree) is None ==> tree_rewritten(cfg, opened, tree) == tree,
        choices_of(tree) matches Some(choices) ==> {
            &&& tree_rewritten(cfg, opened, tree) matches JsonTree::Object(members)
            &&& members.remove("choices"@) == tree->Object_0.remove("choices"@)
            &&& choices_of(tree_rewritten(cfg, opened, tree)) == Some(
                choices_rewritten(cfg, opened, choices),
            )
            &&& choices_rewritten(cfg, opened, choices).len() == choices.len()
        },
{
    if let Some(choices) = choices_of(tree) {
        let members = tree->Object_0;
        let new = JsonTree::Array(choices_rewritten(cfg, opened, choices));
        assert(members.insert("choices"@, new).remove("choices"@) == members.remove("choices"@));
    }
}

/// Whether no choice has a content that holds the pattern that is looked for:
/// the close pattern inside a block, the open pattern outside.
pub open spec fn is_plain(
    cfg: ReplacementConfig,
    opened: bool,
    choices: Seq<JsonTree>,
) -> bool {
    forall|i: int|
        0 <= i < choices.len() ==> (content(#[trigger] choices[i]) matches Some(text)
            ==> !pattern::occurs(text, replacer::sought(cfg, opened)))
}

proof fn lemma_plain_choices_opened(
    cfg: ReplacementConfig,
    opened: bool,
    choices: Seq<JsonTree>,
    n: int,
)
    requires
        is_plain(cfg, opened, choices),
        0 <= n <= choices.len(),
    ensures
        choices_opened(cfg, opened, choices.take(n)) == opened,
    decreases n,
{
    if n > 0 {
        assert(choices.take(n).drop_last() == choices.take(n - 1));
        assert(choices.take(n).last() == choices[n - 1]);
        lemma_plain_choices_opened(cfg, opened, choices, n - 1);
    }
}

/// A completion is left as it is where no content holds the pattern that is
/// looked for: outside a block, as at the start, the open pattern.
pub proof fn law_plain_completion_is_kept(cfg: ReplacementConfig, opened: bool, tree: JsonTree)
    requires
        choices_of(tree) matches Some(choices) ==> is_plain(cfg, opened, choices),
    ensures
        tree_rewritten(cfg, opened, tree) == tree,
        tree_opened(cfg, opened, tree) == opened,
{
    if let Some(choices) = choices_of(tree) {
        let members = tree->Object_0;
        assert forall|i: int| 0 <= i < choices.len() implies #[trigger] choices_rewritten(
            cfg,
            opened,
            choices,
        )[i] == choices[i] by {
            if let Some(text) = content(choices[i]) {
                lemma_plain_choices_opened(cfg, opened, choices, i);
                replacer::law_plain_text_passes(cfg, opened, text);
                lemma_put_same(choices[i], content_path(), JsonTree::Text(text));
            }
        }
        assert(choices_rewritten(cfg, opened, choices) == choices);
        assert(members.insert("choices"@, members["choices"@]) == members);
        lemma_plain_choices_opened(cfg, opened, choices, choices.len() as int);
        assert(choices.take(choices.len() as int) == choices);
    }
}

proof fn lemma_put_reads_back(
    tree: JsonTree,
    path: Seq<Seq<char>>,
    text: Seq<char>,
    levels: nat,
)
    requires
        at_path(tree, path) is Some,
        reads_back(tree, levels),
    ensures
        reads_back(put_at_path(tree, path, JsonTree::Text(text)), levels),
    decreases path.len(),
{
    if path.len() > 0 {
        let members = tree->Object_0;
        lemma_put_reads_back(members[path[0]], path.skip(1), text, (levels - 1) as nat);
    }
}

proof fn lemma_rewritten_reads_back(
    cfg: ReplacementConfig,
    opened: bool,
    tree: JsonTree,
    levels: nat,
)
    requires
        reads_back(tree, levels),
    ensures
        reads_back(tree_rewritten(cfg, opened, tree), levels),
{
    if let Some(choices) = choices_of(tree) {
        let members = tree->Object_0;
        let inner = (levels - 2) as nat;
        assert(reads_back(members["choices"@], (levels - 1) as nat));
        assert forall|i: int| 0 <= i < choices.len() implies reads_back(
            #[trigger] choices_rewritten(cfg, opened, choices)[i],
            inner,
        ) by {
            assert(reads_back(choices[i], inner));
            if let Some(text) = content(choices[i]) {
                let state = choices_opened(cfg, opened, choices.take(i));
                lemma_put_reads_back(
                    choices[i],
                    content_path(),
                    replacer::rewritten(cfg, state, text),
                    inner,
                );
            }
        }
        let new = JsonTree::Array(choices_rewritten(cfg, opened, choices));
        assert(reads_back(new, (levels - 1) as nat));
    }
}

/// What becomes of a body.
pub enum JsonBody {
    /// It is not JSON.
    NotJson,
    /// It has been rewritten.
    Rewritten(Vec<u8>),
    /// It could not be written out again.
    Unprintable(serde_json::Error),
}

/// Rewrites a completion that has come as a whole, from bytes to bytes. A body
/// that is JSON is always rewritten.
pub fn rewrite_body(raw: &[u8], replace_cfg: ReplacementConfig) -> (body: JsonBody)
    ensures
        match parsed_json(raw@) {
            None => body == JsonBody::NotJson,
            Some(tree) => {
                &&& body matches JsonBody::Rewritten(b)
                &&& b@ == printed_json(tree_rewritten(replace_cfg, false, tree))
                // Whoever reads the new body finds the completion with its contents rewritten.
                &&& reads_back(tree, MAX_NESTING as nat) ==> parsed_json(b@) == Some(
                    tree_rewritten(replace_cfg, false, tree),
                )
            },
        },
{
    match parse_json(raw) {
        None => JsonBody::NotJson,
        Some(mut json) => {
            let mut replacer = PatternReplacer::new(replace_cfg);
            let ghost tree = json_tree(json);
            rewrite_choices(&mut json, &mut replacer);
            proof {
                if reads_back(tree, MAX_NESTING as nat) {
                    lemma_rewritten_reads_back(replace_cfg, false, tree, MAX_NESTING as nat);
                }
            }
            match print_json(&json) {
                Ok(bytes) => JsonBody::Rewritten(bytes),
                Err(e) => JsonBody::Unprintable(e),
            }
        },
    }
}

/// Whatever else a choice has: where its message has a content that is a text,
/// that text is rewritten, and the state goes on from it.
pub proof fn law_content_is_rewritten_whatever_else_there_is(
    cfg: ReplacementConfig,
    opened: bool,
    choice: JsonTree,
    text: Seq<char>,
)
    requires
        at_path(choice, seq!["message"@, "content"@]) == Some(JsonTree::Text(text)),
    ensures
        at_path(choice_rewritten(cfg, opened, choice), seq!["message"@, "content"@]) == Some(
            JsonTree::Text(replacer::rewritten(cfg, opened, text)),
        ),
        choice_opened(cfg, opened, choice) == replacer::opened_after(cfg, opened, text),
{
    lemma_put_then_get(
        choice,
        content_path(),
        JsonTree::Text(replacer::rewritten(cfg, opened, text)),
    );
}

/// The same, member by member: nothing but the content of the message changes.
pub proof fn law_nothing_but_the_content_is_changed(
    cfg: ReplacementConfig,
    opened: bool,
    members: Map<Seq<char>, JsonTree>,
    message: Map<Seq<char>, JsonTree>,
    text: Seq<char>,
)
    requires
        members.contains_key("message"@),
        members["message"@] == JsonTree::Object(message),
        message.contains_key("content"@),
        message["content"@] == JsonTree::Text(text),
    ensures
        choice_rewritten(cfg, opened, JsonTree::Object(members)) == JsonTree::Object(
            members.insert(
                "message"@,
                JsonTree::Object(
                    message.insert(
                        "content"@,
                        JsonTree::Text(replacer::rewritten(cfg, opened, text)),
                    ),
                ),
            ),
        ),
        choice_opened(cfg, opened, JsonTree::Object(members)) == replacer::opened_after(
            cfg,
            opened,
            text,
        ),
{
    let path = content_path();
    let new = JsonTree::Text(replacer::rewritten(cfg, opened, text));
    assert(path.skip(1) == seq!["content"@]);
    assert(path.skip(1).skip(1) == Seq::<Seq<char>>::empty());
    assert(at_path(message["content"@], path.skip(1).skip(1)) == Some(message["content"@]));
    assert(at_path(JsonTree::Object(message), path.skip(1)) == Some(message["content"@]));
    assert(at_path(JsonTree::Object(members), path) == Some(message["content"@]));
    assert(put_at_path(message["content"@], path.skip(1).skip(1), new) == new);
    assert(put_at_path(JsonTree::Object(message), path.skip(1), new) == JsonTree::Object(
        message.insert("content"@, new),
    ));
}

/// A choice without a message, with a message without a content, or with a
/// content that is no text, is left as it is.
pub proof fn law_choices_without_content_are_kept(
    cfg: ReplacementConfig,
    opened: bool,
    choice: JsonTree,
)
    requires
        match choice {
            JsonTree::Object(members) => members.contains_key("message"@) ==> match members["message"@] {
                JsonTree::Object(message) => message.contains_key("content"@) ==> !(
                message["content"@] is Text),
                _ => true,
            },
            _ => true,
        },
    ensures
        choice_rewritten(cfg, opened, choice) == choice,
        choice_opened(cfg, opened, choice) == opened,
{
    let path = content_path();
    assert(path.skip(1) == seq!["content"@]);
    assert(path.skip(1).skip(1) == Seq::<Seq<char>>::empty());
    if let JsonTree::Object(members) = choice {
        if members.contains_key("message"@) {
            if let JsonTree::Object(message) = members["message"@] {
                if message.contains_key("content"@) {
                    assert(at_path(message["content"@], path.skip(1).skip(1)) == Some(
                        message["content"@],
                    ));
                }
                assert(at_path(choice, path) == at_path(members["message"@], path.skip(1)));
            } else {
                assert(at_path(members["message"@], path.skip(1)) is None);
            }
        }
    }
}

/// Choices are rewritten in turn: those that come later in the state that those
/// before have left.
pub proof fn law_choices_are_rewritten_in_turn(
    cfg: ReplacementConfig,
    opened: bool,
    former: Seq<JsonTree>,
    latter: Seq<JsonTree>,
)
    ensures
        choices_rewritten(cfg, opened, former + latter) == choices_rewritten(cfg, opened, former)
            + choices_rewritten(cfg, choices_opened(cfg, opened, former), latter),
        choices_opened(cfg, opened, former + latter) == choices_opened(
            cfg,
            choices_opened(cfg, opened, former),
            latter,
        ),
{
    let all = former + latter;
    let state = choices_opened(cfg, opened, former);
    assert forall|n: int| 0 <= n <= latter.len() implies #[trigger] choices_opened(
        cfg,
        state,
        latter.take(n),
    ) == choices_opened(cfg, opened, all.take(former.len() + n)) by {
        lemma_choices_opened_append(cfg, opened, former, latter.take(n));
        assert(all.take(former.len() + n) == former + latter.take(n));
    }
    assert(latter.take(latter.len() as int) == latter);
    assert(all.take(all.len() as int) == all);
    assert forall|i: int| 0 <= i < all.len() implies choices_rewritten(cfg, opened, all)[i] == (
    choices_rewritten(cfg, opened, former) + choices_rewritten(cfg, state, latter))[i] by {
        if i < former.len() {
            assert(all.take(i) == former.take(i));
        } else {
            let n = i - former.len();
            assert(choices_opened(cfg, state, latter.take(n)) == choices_opened(
                cfg,
                opened,
                all.take(former.len() + n),
            ));
        }
    }
    assert(choices_rewritten(cfg, opened, all) =~= choices_rewritten(cfg, opened, former)
        + choices_rewritten(cfg, state, latter));
}

proof fn lemma_choices_opened_append(
    cfg: ReplacementConfig,
    opened: bool,
    former: Seq<JsonTree>,
    latter: Seq<JsonTree>,
)
    ensures
        choices_opened(cfg, opened, former + latter) == choices_opened(
            cfg,
            choices_opened(cfg, opened, former),
            latter,
        ),
    decreases latter.len(),
{
    if latter.len() == 0 {
        assert(former + latter == former);
    } else {
        assert((former + latter).drop_last() == former + latter.drop_last());
        lemma_choices_opened_append(cfg, opened, former, latter.drop_last());
    }
}

/// A choice alone is rewritten in the state that is there, and no choice changes
/// nothing.
pub proof fn law_one_choice(cfg: ReplacementConfig, opened: bool, choice: JsonTree)
    ensures
        choices_rewritten(cfg, opened, seq![choice]) == seq![
            choice_rewritten(cfg, opened, choice),
        ],
        choices_opened(cfg, opened, seq![choice]) == choice_opened(cfg, opened, choice),
        choices_rewritten(cfg, opened, seq![]) == Seq::<JsonTree>::empty(),
        choices_opened(cfg, opened, seq![]) == opened,
{
    let one = seq![choice];
    assert(one.drop_last() == Seq::<JsonTree>::empty());
    assert(one.take(0) == Seq::<JsonTree>::empty());
    assert(choices_opened(cfg, opened, one.drop_last()) == opened);
    assert(choices_opened(cfg, opened, one.take(0)) == opened);
}

/// Of a completion, whatever else it has, the choices are rewritten and every
/// other member is kept.
pub proof fn law_nothing_but_the_choices_is_changed(
    cfg: ReplacementConfig,
    opened: bool,
    members: Map<Seq<char>, JsonTree>,
    choices: Seq<JsonTree>,
)
    requires
        members.contains_key("choices"@),
        members["choices"@] == JsonTree::Array(choices),
    ensures
        tree_rewritten(cfg, opened, JsonTree::Object(members)) == JsonTree::Object(
            members.insert("choices"@, JsonTree::Array(choices_rewritten(cfg, opened, choices))),
        ),
        tree_opened(cfg, opened, JsonTree::Object(members)) == choices_opened(
            cfg,
            opened,
            choices,
        ),
{
}

/// What has no choices is left as it is.
pub proof fn law_other_values_are_kept(cfg: ReplacementConfig, opened: bool, tree: JsonTree)
    requires
        tree matches JsonTree::Object(members) ==> (members.contains_key("choices"@) ==> !(
        members["choices"@] is Array)),
    ensures
        tree_rewritten(cfg, opened, tree) == tree,
        tree_opened(cfg, opened, tree) == opened,
{
}

} // verus!
