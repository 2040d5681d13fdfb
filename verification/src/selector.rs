//! Deterministic target selection from a validated JSON classifier verdict.
//!
//! When learned per-target statistics are supplied, they take the place of the judge: the target
//! with the highest observed posterior-mean reward wins outright. There is no exploration and no
//! sampling, so identical statistics always produce the same pick.

use vstd::prelude::*;
use vstd::string::*;
use vstd::utf8::encode_utf8;

use crate::binary64::Binary64;
use crate::classification::{abstains, abstention, decides, decisive, Classification, Ruling};
use crate::error::AlgorithmError;
use crate::json::{inspect, json_of, Json, Shape};
use crate::model::ModelId;
use crate::tables::{is_listing, TextMap};
use crate::text::decimal;

verus! {

// ── JSON Pointers ───────────────────────────────────────────────────────────

/// `jsonptr::PointerBuf`, carried as an opaque value whose text is [`pointer_text`].
#[verifier::external_type_specification]
#[verifier::external_body]
pub struct ExPointerBuf(jsonptr::PointerBuf);

/// The text of a JSON Pointer.
pub uninterp spec fn pointer_text(pointer: jsonptr::PointerBuf) -> Seq<char>;

/// Whether a text is a JSON Pointer: empty, or begun by a slash, with every tilde followed by `0`
/// or `1`.
pub open spec fn is_pointer(text: Seq<char>) -> bool {
    text.len() == 0 || {
        &&& text[0] == '/'
        &&& forall|i: int|
            0 <= i < text.len() && #[trigger] text[i] == '~' ==> i + 1 < text.len() && (text[i + 1]
                == '0' || text[i + 1] == '1')
    }
}

/// The position of the first tilde from `from` on that neither `0` nor `1` follows.
pub open spec fn stray_tilde(text: Seq<char>, from: int) -> int
    decreases text.len() - from,
{
    if from >= text.len() {
        from
    } else if text[from] == '~' && !(from + 1 < text.len() && (text[from + 1] == '0' || text[from
        + 1] == '1')) {
        from
    } else {
        stray_tilde(text, from + 1)
    }
}

/// The position of the last slash up to `at`.
pub open spec fn slash_before(text: Seq<char>, at: int) -> int
    decreases at,
{
    if at <= 0 || text[at] == '/' {
        at
    } else {
        slash_before(text, at - 1)
    }
}

/// What is said of a text that is not a JSON Pointer: that its slash is missing, or at which byte
/// the reference token with the first stray tilde starts.
pub open spec fn pointer_error(text: Seq<char>) -> Seq<char> {
    if text[0] != '/' {
        "json pointer failed to parse; does not start with a slash ('/') and is not empty"@
    } else {
        "json pointer failed to parse; the first token in the partial-pointer starting at offset "@
            + decimal(encode_utf8(text.take(slash_before(text, stray_tilde(text, 0)))).len())
            + " is malformed"@
    }
}

/// The reference tokens of a JSON Pointer: what stands after each slash, up to the next one.
pub open spec fn pointer_tokens(text: Seq<char>) -> Seq<Seq<char>>
    decreases text.len(),
{
    if text.len() == 0 {
        Seq::empty()
    } else {
        let tokens = pointer_tokens(text.drop_last());
        if text.last() == '/' {
            tokens.push(Seq::empty())
        } else {
            tokens.drop_last().push(tokens.last().push(text.last()))
        }
    }
}

/// The field that a reference token names: `~0` stands for a tilde and `~1` for a slash.
pub open spec fn decoded(token: Seq<char>) -> Seq<char>
    decreases token.len(),
{
    if token.len() == 0 {
        token
    } else if token.len() > 1 && token[0] == '~' && token[1] == '0' {
        seq!['~'] + decoded(token.skip(2))
    } else if token.len() > 1 && token[0] == '~' && token[1] == '1' {
        seq!['/'] + decoded(token.skip(2))
    } else {
        seq![token[0]] + decoded(token.skip(1))
    }
}

/// Whether a reference token is an array index: decimal digits without a leading zero.
pub open spec fn is_index(token: Seq<char>) -> bool {
    &&& token.len() > 0
    &&& forall|i: int| 0 <= i < token.len() ==> '0' <= #[trigger] token[i] <= '9'
    &&& token[0] == '0' ==> token.len() == 1
}

/// The number that decimal digits write.
pub open spec fn index_value(token: Seq<char>) -> int
    decreases token.len(),
{
    if token.len() == 0 {
        0
    } else {
        10 * index_value(token.drop_last()) + (token.last() as int - '0' as int)
    }
}

/// What one reference token finds in a value: the member of that name in an object, the item at
/// that index in an array.
pub open spec fn child(json: Json, token: Seq<char>) -> Option<Json> {
    match json {
        Json::Record(map) => if map.contains_key(decoded(token)) {
            Some(map[decoded(token)])
        } else {
            None
        },
        Json::List(items) => if is_index(token) && index_value(token) < items.len() {
            Some(items[index_value(token)])
        } else {
            None
        },
        _ => None,
    }
}

/// What reference tokens find in a value, one after the other.
pub open spec fn descendant(json: Json, tokens: Seq<Seq<char>>) -> Option<Json>
    decreases tokens.len(),
{
    if tokens.len() == 0 {
        Some(json)
    } else {
        match descendant(json, tokens.drop_last()) {
            Some(inner) => child(inner, tokens.last()),
            None => None,
        }
    }
}

/// What a JSON Pointer, given by its text, finds in a value.
pub open spec fn pointer_target(pointer: Seq<char>, json: Json) -> Option<Json> {
    descendant(json, pointer_tokens(pointer))
}

/// `jsonptr::PointerBuf::parse`: the pointer with the given text, or what is wrong with the text.
#[verifier::external_body]
pub(crate) fn parse_pointer(text: String) -> (r: Result<jsonptr::PointerBuf, String>)
    ensures
        match r {
            Ok(pointer) => is_pointer(text@) && pointer_text(pointer) == text@,
            Err(message) => !is_pointer(text@) && message@ == pointer_error(text@),
        },
{
    jsonptr::PointerBuf::parse(text).map_err(|error| error.to_string())
}

/// `jsonptr::Pointer::is_root`: whether the pointer's text is empty.
#[verifier::external_body]
pub(crate) fn is_root(pointer: &jsonptr::PointerBuf) -> (r: bool)
    ensures
        r == (pointer_text(*pointer).len() == 0),
{
    pointer.is_root()
}

/// `jsonptr::Pointer::resolve` on a `serde_json::Value`: the value that the pointer's reference
/// tokens lead to, if every one of them finds something.
#[verifier::external_body]
pub(crate) fn resolve_pointer<'a>(
    pointer: &jsonptr::PointerBuf,
    value: &'a serde_json::Value,
) -> (found: Option<&'a serde_json::Value>)
    ensures
        match found {
            Some(item) => pointer_target(pointer_text(*pointer), json_of(*value)) == Some(
                json_of(*item),
            ),
            None => pointer_target(pointer_text(*pointer), json_of(*value)) is None,
        },
{
    pointer.resolve(value).ok()
}

// ── Learned rewards ─────────────────────────────────────────────────────────

/// Aggregated reward for one routing target, learned from the routing log.
///
/// `alpha` is the soft success count plus one; `beta` the soft failure count plus one.
#[derive(Clone, Copy, Debug, PartialEq, Eq, Structural)]
pub struct LearnedTargetStat {
    pub alpha: Binary64,
    pub beta: Binary64,
}

impl LearnedTargetStat {
    /// Posterior mean reward, `alpha / (alpha + beta)`.
    pub open spec fn expected(self) -> Binary64 {
        self.alpha.over(self.alpha.plus(self.beta))
    }

    /// Posterior mean reward, `alpha / (alpha + beta)`.
    pub fn mean(&self) -> (mean: Binary64)
        ensures
            mean == self.expected(),
    {
        self.alpha.div(self.alpha.add(self.beta))
    }
}

/// The position of the entry with the highest mean among those whose label has a target, the last
/// of equals; negative if there is none.
pub open spec fn best_entry(
    listing: Seq<(Seq<char>, LearnedTargetStat)>,
    targets: Map<Seq<char>, ModelId>,
) -> int
    decreases listing.len(),
{
    if listing.len() == 0 {
        -1
    } else {
        let best = best_entry(listing.drop_last(), targets);
        if !targets.contains_key(listing.last().0) {
            best
        } else if best >= 0 && listing.last().1.expected().less(listing[best].1.expected()) {
            best
        } else {
            listing.len() - 1
        }
    }
}

proof fn lemma_best_entry(
    listing: Seq<(Seq<char>, LearnedTargetStat)>,
    targets: Map<Seq<char>, ModelId>,
)
    ensures
        -1 <= best_entry(listing, targets) < listing.len(),
        best_entry(listing, targets) >= 0 ==> targets.contains_key(
            listing[best_entry(listing, targets)].0,
        ),
    decreases listing.len(),
{
    if listing.len() > 0 {
        lemma_best_entry(listing.drop_last(), targets);
    }
}

// ── The policy ──────────────────────────────────────────────────────────────

/// Maps one text field in a validated verdict to a configured routing target.
///
/// With learned statistics attached, the verdict is only a fallback: the configured target with
/// the highest mean reward is selected instead.
pub struct TargetSelectorPolicy {
    pub selector: jsonptr::PointerBuf,
    pub targets: TextMap<ModelId>,
    /// Learned per-label reward statistics. Empty keeps the verdict-driven behavior.
    pub learned: TextMap<LearnedTargetStat>,
}

impl TargetSelectorPolicy {
    /// The target with the best learned reward, if any label with statistics has a target.
    pub open spec fn best(self) -> Option<Seq<char>> {
        let at = best_entry(self.learned.listing(), self.targets@);
        if at < 0 {
            None
        } else {
            Some(self.targets@[self.learned.listing()[at].0]@)
        }
    }

    /// What the selector finds in a verdict.
    pub open spec fn selection(self, verdict: Option<Json>) -> Option<Json> {
        match verdict {
            Some(json) => pointer_target(pointer_text(self.selector), json),
            None => None,
        }
    }

    /// The target whose label the selector found.
    pub open spec fn named(self, found: Option<Json>) -> Option<Seq<char>> {
        match found {
            Some(Json::Text(label)) => if self.targets@.contains_key(label) {
                Some(self.targets@[label]@)
            } else {
                None
            },
            _ => None,
        }
    }

    /// The decision on what the selector found.
    pub open spec fn ruling_on(self, found: Option<Json>) -> Ruling {
        match self.best() {
            Some(target) => decides(target),
            None => match self.named(found) {
                Some(target) => decides(target),
                None => abstains(),
            },
        }
    }

    /// The decision on a verdict.
    pub open spec fn ruling(self, verdict: Option<Json>) -> Ruling {
        self.ruling_on(self.selection(verdict))
    }

    /// Parses a JSON Pointer used to read validated verdicts.
    pub fn new(selector: String, targets: TextMap<ModelId>) -> (r: Result<Self, AlgorithmError>)
        ensures
            match r {
                Ok(policy) => {
                    &&& is_pointer(selector@)
                    &&& selector@.len() > 0
                    &&& pointer_text(policy.selector) == selector@
                    &&& policy.targets == targets
                    &&& policy.learned@ == Map::<Seq<char>, LearnedTargetStat>::empty()
                    &&& policy.learned.listing() == Seq::<(Seq<char>, LearnedTargetStat)>::empty()
                },
                Err(AlgorithmError::InvalidSelector { message }) => !is_pointer(selector@)
                    && message@ == "policy selector is not a valid JSON Pointer: "@
                    + pointer_error(selector@),
                Err(error) => selector@.len() == 0 && error == AlgorithmError::RootSelector,
            },
    {
        match parse_pointer(selector) {
            Ok(selector) => if is_root(&selector) {
                Err(AlgorithmError::RootSelector)
            } else {
                Ok(TargetSelectorPolicy { selector, targets, learned: TextMap::new() })
            },
            Err(reason) => {
                let mut message = "policy selector is not a valid JSON Pointer: ".to_owned();
                message.append(reason.as_str());
                Err(AlgorithmError::InvalidSelector { message })
            },
        }
    }

    /// Attaches learned per-label reward statistics.
    ///
    /// Only statistics whose label has a configured target are kept; the rest cannot name a
    /// routing destination.
    pub fn with_learned(self, learned: TextMap<LearnedTargetStat>) -> (policy: Self)
        ensures
            policy.selector == self.selector,
            policy.targets == self.targets,
            policy.learned@ == learned@.restrict(self.targets@.dom()),
            is_listing(policy.learned.listing(), policy.learned@),
    {
        let mut kept: TextMap<LearnedTargetStat> = TextMap::new();
        let ghost listing = learned.listing();
        let ghost known = self.targets@.dom();
        let ghost seen = |n: int, key: Seq<char>|
            exists|j: int| 0 <= j < n && (#[trigger] listing[j]).0 == key;
        let count = learned.len();
        let mut i: usize = 0;
        while i < count
            invariant
                i <= count,
                count == listing.len(),
                listing == learned.listing(),
                is_listing(listing, learned@),
                is_listing(kept.listing(), kept@),
                known == self.targets@.dom(),
                seen == |n: int, key: Seq<char>|
                    exists|j: int| 0 <= j < n && (#[trigger] listing[j]).0 == key,
                forall|key: Seq<char>| #[trigger]
                    kept@.contains_key(key) == (known.contains(key) && seen(i as int, key)),
                forall|key: Seq<char>| #[trigger]
                    kept@.contains_key(key) ==> kept@[key] == learned@[key],
            decreases count - i,
        {
            let label = learned.key_at(i);
            let ghost before = kept@;
            proof {
                assert(forall|key: Seq<char>|
                    #[trigger] seen(i + 1, key) == (seen(i as int, key) || key == label@)) by {
                    assert forall|key: Seq<char>| #[trigger] seen(i + 1, key) == (seen(
                        i as int,
                        key,
                    ) || key == label@) by {
                        assert(listing[i as int].0 == label@);
                        if seen(i + 1, key) {
                            let j = choose|j: int| 0 <= j < i + 1 && (#[trigger] listing[j]).0
                                == key;
                            assert(j == i || seen(i as int, key));
                        }
                        if seen(i as int, key) {
                            let j = choose|j: int| 0 <= j < i && (#[trigger] listing[j]).0 == key;
                            assert(0 <= j < i + 1 && listing[j].0 == key);
                        }
                    }
                }
            }
            if self.targets.get(label.as_str()).is_some() {
                kept.insert(label.clone(), *learned.value_at(i));
            }
            i = i + 1;
        }
        proof {
            let expected = learned@.restrict(known);
            assert forall|key: Seq<char>| #[trigger]
                kept@.contains_key(key) == expected.contains_key(key) by {
                if learned@.contains_key(key) {
                    let j = choose|j: int| 0 <= j < listing.len() && (#[trigger] listing[j]).0
                        == key;
                    assert(seen(count as int, key));
                }
                if seen(count as int, key) {
                    let j = choose|j: int| 0 <= j < count && (#[trigger] listing[j]).0 == key;
                    assert(learned@.contains_key(listing[j].0));
                }
            }
            assert(kept@ =~= expected);
        }
        TargetSelectorPolicy { selector: self.selector, targets: self.targets, learned: kept }
    }

    /// The learned best target: the label with the highest mean reward that has a target.
    ///
    /// Ties break on label order, so the pick is deterministic.
    pub fn learned_best(&self) -> (target: Option<&ModelId>)
        ensures
            match target {
                Some(target) => self.best() == Some(target@),
                None => self.best() is None,
            },
    {
        let ghost listing = self.learned.listing();
        let ghost targets = self.targets@;
        let count = self.learned.len();
        let mut best: Option<(usize, &ModelId)> = None;
        let mut i: usize = 0;
        assert(listing.take(0) =~= Seq::<(Seq<char>, LearnedTargetStat)>::empty());
        while i < count
            invariant
                i <= count,
                count == listing.len(),
                listing == self.learned.listing(),
                targets == self.targets@,
                match best {
                    Some((at, target)) => at < i && at == best_entry(
                        listing.take(i as int),
                        targets,
                    ) && targets.contains_key(listing[at as int].0) && targets[listing[at as int].0]
                        == *target,
                    None => best_entry(listing.take(i as int), targets) < 0,
                },
            decreases count - i,
        {
            proof {
                lemma_best_entry(listing.take(i as int), targets);
                assert(listing.take(i + 1).drop_last() =~= listing.take(i as int));
                assert(listing.take(i + 1).last() == listing[i as int]);
            }
            if let Some(target) = self.targets.get(self.learned.key_at(i).as_str()) {
                let keep = match best {
                    Some((at, _)) => {
                        assert(listing.take(i + 1)[at as int] == listing[at as int]);
                        self.learned.value_at(i).mean().lt(self.learned.value_at(at).mean())
                    },
                    None => false,
                };
                if !keep {
                    best = Some((i, target));
                }
            }
            i = i + 1;
        }
        assert(listing.take(i as int) =~= listing);
        match best {
            Some((_, target)) => Some(target),
            None => None,
        }
    }

    /// The decision on what the selector found in the judge's verdict.
    pub fn on_found(&self, found: Option<&serde_json::Value>) -> (decision: Classification)
        ensures
            decision@ == self.ruling_on(
                match found {
                    Some(found) => Some(json_of(*found)),
                    None => None,
                },
            ),
    {
        if let Some(target) = self.learned_best() {
            return decisive(target);
        }
        match found {
            Some(found) => match inspect(found) {
                Shape::Text(label) => match self.targets.get(label.as_str()) {
                    Some(target) => decisive(target),
                    None => abstention(),
                },
                _ => abstention(),
            },
            None => abstention(),
        }
    }

    /// The decision on whatever the judge said.
    pub fn to_classification(&self, verdict: Option<&serde_json::Value>) -> (decision:
        Classification)
        ensures
            decision@ == self.ruling(
                match verdict {
                    Some(verdict) => Some(json_of(*verdict)),
                    None => None,
                },
            ),
    {
        match verdict {
            Some(verdict) => self.on_found(resolve_pointer(&self.selector, verdict)),
            None => self.on_found(None),
        }
    }
}

// ── Laws ────────────────────────────────────────────────────────────────────

/// Learned statistics take the place of the judge: with any usable one, every verdict gets the
/// same decision.
pub proof fn law_learned_rewards_replace_the_verdict(
    policy: TargetSelectorPolicy,
    first: Option<Json>,
    second: Option<Json>,
)
    requires
        best_entry(policy.learned.listing(), policy.targets@) >= 0,
    ensures
        policy.ruling(first) == policy.ruling(second),
        policy.ruling(first) is Scores,
{
}

/// The learned pick has the highest mean of all labels that have a target, and of equal means the
/// label that comes last.
pub proof fn law_learned_pick_has_the_highest_mean(
    listing: Seq<(Seq<char>, LearnedTargetStat)>,
    targets: Map<Seq<char>, ModelId>,
    i: int,
)
    requires
        0 <= i < listing.len(),
        targets.contains_key(listing[i].0),
        forall|k: int| 0 <= k < listing.len() ==> !(#[trigger] listing[k]).1.expected().nan(),
    ensures
        0 <= best_entry(listing, targets) < listing.len(),
        targets.contains_key(listing[best_entry(listing, targets)].0),
        listing[i].1.expected().at_most(listing[best_entry(listing, targets)].1.expected()),
        i > best_entry(listing, targets) ==> listing[i].1.expected().less(
            listing[best_entry(listing, targets)].1.expected(),
        ),
    decreases listing.len(),
{
    lemma_best_entry(listing, targets);
    let front = listing.drop_last();
    lemma_best_entry(front, targets);
    assert(forall|k: int| 0 <= k < front.len() ==> #[trigger] front[k] == listing[k]);
    if i < front.len() {
        law_learned_pick_has_the_highest_mean(front, targets, i);
    }
}

/// Whether a field name stands for itself in a JSON Pointer.
pub open spec fn plain_field(field: Seq<char>) -> bool {
    forall|i: int| 0 <= i < field.len() ==> #[trigger] field[i] != '/' && field[i] != '~'
}

/// The JSON Pointer to a field inside nested objects.
pub open spec fn path_to(fields: Seq<Seq<char>>) -> Seq<char>
    decreases fields.len(),
{
    if fields.len() == 0 {
        Seq::empty()
    } else {
        path_to(fields.drop_last()) + seq!['/'] + fields.last()
    }
}

proof fn lemma_appended_token(pointer: Seq<char>, field: Seq<char>)
    requires
        forall|i: int| 0 <= i < field.len() ==> #[trigger] field[i] != '/',
    ensures
        pointer_tokens(pointer + seq!['/'] + field) == pointer_tokens(pointer).push(field),
    decreases field.len(),
{
    let whole = pointer + seq!['/'] + field;
    if field.len() == 0 {
        assert(whole.drop_last() =~= pointer);
        assert(field =~= Seq::<char>::empty());
    } else {
        let front = field.drop_last();
        lemma_appended_token(pointer, front);
        assert(whole.drop_last() =~= pointer + seq!['/'] + front);
        let tokens = pointer_tokens(pointer).push(front);
        assert(tokens.drop_last() =~= pointer_tokens(pointer));
        assert(front.push(field.last()) =~= field);
    }
}

proof fn lemma_plain_field_stands_for_itself(field: Seq<char>)
    requires
        plain_field(field),
    ensures
        decoded(field) == field,
    decreases field.len(),
{
    if field.len() > 0 {
        assert forall|i: int| 0 <= i < field.skip(1).len() implies #[trigger] field.skip(1)[i] != '/'
            && field.skip(1)[i] != '~' by {
            assert(field.skip(1)[i] == field[i + 1]);
        }
        lemma_plain_field_stands_for_itself(field.skip(1));
        assert(seq![field[0]] + field.skip(1) =~= field);
    }
}

/// A pointer that goes one plain field deeper finds that member of the object that the shorter
/// pointer finds.
pub proof fn law_selectors_follow_fields(fields: Seq<Seq<char>>, field: Seq<char>, json: Json)
    requires
        plain_field(field),
    ensures
        pointer_target(path_to(Seq::empty()), json) == Some(json),
        pointer_target(path_to(fields.push(field)), json) == match pointer_target(
            path_to(fields),
            json,
        ) {
            Some(Json::Record(map)) if map.contains_key(field) => Some(map[field]),
            Some(Json::List(items)) => child(Json::List(items), field),
            _ => None,
        },
{
    lemma_appended_token(path_to(fields), field);
    lemma_plain_field_stands_for_itself(field);
    assert(fields.push(field).drop_last() =~= fields);
    let tokens = pointer_tokens(path_to(fields));
    assert(tokens.push(field).drop_last() =~= tokens);
}

/// Without learned statistics the verdict decides.
pub proof fn law_without_learned_rewards_the_verdict_decides(
    policy: TargetSelectorPolicy,
    verdict: Option<Json>,
)
    requires
        policy.learned.listing().len() == 0,
    ensures
        policy.ruling(verdict) == match policy.named(policy.selection(verdict)) {
            Some(target) => decides(target),
            None => abstains(),
        },
{
}

/// A verdict's selected text decides for the target under that label; another value, an unknown
/// label or no value decides nothing.
pub proof fn law_selected_labels_name_their_target(
    policy: TargetSelectorPolicy,
    label: Seq<char>,
    found: Json,
)
    requires
        policy.learned.listing().len() == 0,
    ensures
        policy.targets@.contains_key(label) ==> policy.ruling_on(Some(Json::Text(label))) == decides(
            policy.targets@[label]@,
        ),
        !policy.targets@.contains_key(label) ==> policy.ruling_on(Some(Json::Text(label)))
            == abstains(),
        !(found is Text) ==> policy.ruling_on(Some(found)) == abstains(),
        policy.ruling_on(None) == abstains(),
{
}

/// The decision on a verdict is the one on what the selector finds in it, and without a verdict
/// the one on nothing found.
pub proof fn law_the_selector_reads_the_verdict(policy: TargetSelectorPolicy, verdict: Json)
    ensures
        policy.ruling(Some(verdict)) == policy.ruling_on(
            pointer_target(pointer_text(policy.selector), verdict),
        ),
        policy.ruling(None) == policy.ruling_on(None),
{
}

/// The learned pick is the target under the label of the best entry.
pub proof fn law_the_best_label_names_the_learned_pick(policy: TargetSelectorPolicy)
    ensures
        ({
            let at = best_entry(policy.learned.listing(), policy.targets@);
            at >= 0 ==> policy.ruling_on(None) == decides(
                policy.targets@[policy.learned.listing()[at].0]@,
            )
        }),
{
}

/// A text is a JSON Pointer exactly if it is empty, or starts with a slash and has `0` or `1`
/// behind every tilde.
pub proof fn law_pointers_escape_their_tildes(text: Seq<char>)
    ensures
        is_pointer(text) <==> text.len() == 0 || (text[0] == '/' && forall|i: int|
            0 <= i < text.len() && #[trigger] text[i] == '~' ==> i < text.len() - 1 && (text[i + 1]
                == '0' || text[i + 1] == '1')),
{
}

/// Decoding puts a tilde for `~0` and a slash for `~1`, and keeps other characters.
pub proof fn law_escapes_are_decoded(rest: Seq<char>, c: char)
    ensures
        decoded(Seq::empty()).len() == 0,
        decoded(seq!['~', '0'] + rest) == seq!['~'] + decoded(rest),
        decoded(seq!['~', '1'] + rest) == seq!['/'] + decoded(rest),
        c != '~' ==> decoded(seq![c] + rest) == seq![c] + decoded(rest),
{
    assert((seq!['~', '0'] + rest).skip(2) =~= rest);
    assert((seq!['~', '1'] + rest).skip(2) =~= rest);
    assert((seq![c] + rest).skip(1) =~= rest);
}

/// In a list a token finds the item whose index it writes in decimals, and nothing else.
pub proof fn law_indices_find_their_item(items: Seq<Json>, index: nat, token: Seq<char>)
    ensures
        index < items.len() ==> child(Json::List(items), decimal(index)) == Some(items[index as int]),
        index >= items.len() ==> child(Json::List(items), decimal(index)) is None,
        child(Json::List(items), token) is Some ==> {
            &&& token.len() > 0
            &&& token[0] == '0' ==> token.len() == 1
            &&& forall|i: int| 0 <= i < token.len() ==> '0' <= #[trigger] token[i] <= '9'
        },
{
    crate::text::law_decimals_read_back(index);
    lemma_index_value(decimal(index));
}

proof fn lemma_index_value(token: Seq<char>)
    ensures
        index_value(token) == crate::text::number_of(token),
    decreases token.len(),
{
    if token.len() > 0 {
        lemma_index_value(token.drop_last());
    }
}

/// In an object a token finds the member of its decoded name, and in other values nothing.
pub proof fn law_tokens_find_their_member(map: Map<Seq<char>, Json>, token: Seq<char>, leaf: Json)
    requires
        !(leaf is Record),
        !(leaf is List),
    ensures
        child(Json::Record(map), token) == if map.contains_key(decoded(token)) {
            Some(map[decoded(token)])
        } else {
            None
        },
        child(leaf, token) is None,
{
}

/// A rejected selector without a slash in front is told so; another is told the byte at which the
/// token with the first stray tilde starts.
pub proof fn law_rejections_name_the_malformed_token(text: Seq<char>, slash: int, tilde: int)
    requires
        text.len() > 0,
        text[0] == '/' ==> {
            &&& 0 <= slash < tilde < text.len()
            &&& text[slash] == '/'
            &&& forall|i: int| slash < i <= tilde ==> #[trigger] text[i] != '/'
            &&& text[tilde] == '~'
            &&& !(tilde + 1 < text.len() && (text[tilde + 1] == '0' || text[tilde + 1] == '1'))
            &&& forall|i: int|
                0 <= i < tilde && #[trigger] text[i] == '~' ==> text[i + 1] == '0' || text[i + 1]
                    == '1'
        },
    ensures
        text[0] != '/' ==> pointer_error(text)
            == "json pointer failed to parse; does not start with a slash ('/') and is not empty"@,
        text[0] == '/' ==> pointer_error(text)
            == "json pointer failed to parse; the first token in the partial-pointer starting at offset "@
            + decimal(encode_utf8(text.take(slash)).len()) + " is malformed"@,
{
    if text[0] == '/' {
        lemma_stray(text, 0, tilde);
        lemma_slash(text, slash, tilde);
    }
}

proof fn lemma_stray(text: Seq<char>, from: int, tilde: int)
    requires
        0 <= from <= tilde < text.len(),
        text[tilde] == '~',
        !(tilde + 1 < text.len() && (text[tilde + 1] == '0' || text[tilde + 1] == '1')),
        forall|i: int|
            0 <= i < tilde && #[trigger] text[i] == '~' ==> text[i + 1] == '0' || text[i + 1] == '1',
    ensures
        stray_tilde(text, from) == tilde,
    decreases tilde - from,
{
    if from < tilde {
        assert(text[from] == '~' ==> text[from + 1] == '0' || text[from + 1] == '1');
        lemma_stray(text, from + 1, tilde);
    }
}

proof fn lemma_slash(text: Seq<char>, slash: int, at: int)
    requires
        0 <= slash <= at < text.len(),
        text[slash] == '/',
        forall|i: int| slash < i <= at ==> #[trigger] text[i] != '/',
    ensures
        slash_before(text, at) == slash,
    decreases at,
{
    if slash < at {
        lemma_slash(text, slash, at - 1);
    }
}

/// A learned mean is the quotient of `alpha` and the sum of both counts.
pub proof fn law_learned_means_divide_alpha_by_the_sum(stat: LearnedTargetStat)
    ensures
        stat.expected() == stat.alpha.over(stat.alpha.plus(stat.beta)),
{
}

/// A slash starts a further reference token, which goes on up to the next slash.
pub proof fn law_slashes_separate_tokens(pointer: Seq<char>, token: Seq<char>)
    requires
        forall|i: int| 0 <= i < token.len() ==> #[trigger] token[i] != '/',
    ensures
        pointer_tokens(Seq::empty()).len() == 0,
        pointer_tokens(pointer + seq!['/'] + token) == pointer_tokens(pointer).push(token),
{
    lemma_appended_token(pointer, token);
}

/// A pointer goes one token after the other: where the tokens before the last one find a value,
/// the last one is looked up in it.
pub proof fn law_tokens_are_followed_one_by_one(
    json: Json,
    tokens: Seq<Seq<char>>,
    token: Seq<char>,
)
    ensures
        descendant(json, Seq::empty()) == Some(json),
        descendant(json, tokens.push(token)) == match descendant(json, tokens) {
            Some(inner) => child(inner, token),
            None => None,
        },
{
    assert(tokens.push(token).drop_last() =~= tokens);
}

/// A further entry becomes the best one if its label has a target and its mean is not below the
/// best so far.
pub proof fn law_the_best_entry_is_kept_unless_matched(
    listing: Seq<(Seq<char>, LearnedTargetStat)>,
    targets: Map<Seq<char>, ModelId>,
    entry: (Seq<char>, LearnedTargetStat),
)
    ensures
        best_entry(Seq::empty(), targets) < 0,
        best_entry(listing.push(entry), targets) == if targets.contains_key(entry.0) && (best_entry(
            listing,
            targets,
        ) < 0 || !entry.1.expected().less(listing[best_entry(listing, targets)].1.expected())) {
            listing.len() as int
        } else {
            best_entry(listing, targets)
        },
{
    lemma_best_entry(listing, targets);
    assert(listing.push(entry).drop_last() =~= listing);
    let best = best_entry(listing, targets);
    if best >= 0 {
        assert(listing.push(entry)[best] == listing[best]);
    }
}

} // verus!
