//! The search query model and its rendering to Slack search strings.

use vstd::prelude::*;
use vstd::string::*;

use crate::date::{
    day_after, day_before, day_index, is_valid_ymd, lemma_day_after_index, lemma_day_before_index,
    lemma_two_digits, ymd_text, zero_padded, Date,
};
use crate::text::{
    chars_of, extend_chars, is_whitespace_char, lemma_trim_end_keeps_prefix,
    lemma_trim_keeps_inner_run, lemma_trim_start_stops, occurs_in, strip_hashes,
    strip_leading_hashes, string_from_chars, trim_chars, trim_whitespace,
};

verus! {

/// Who a result involves, relative to the authenticated user. Maps to Slack
/// search modifiers (`from:@me`, `to:@me`).
#[derive(Debug, Clone, Copy, PartialEq, Eq, Structural)]
pub enum Scope {
    /// Messages you sent (`from:@me`).
    FromMe,
    /// Messages mentioning you or sent to you directly (`to:@me`).
    ToMe,
}

/// The Slack search modifier of a scope.
pub open spec fn modifier_text(scope: Scope) -> Seq<char> {
    match scope {
        Scope::FromMe => "from:@me"@,
        Scope::ToMe => "to:@me"@,
    }
}

impl Scope {
    /// The Slack search modifier for this scope.
    pub fn modifier(self) -> (r: &'static str)
        ensures
            r@ == modifier_text(self),
    {
        match self {
            Scope::FromMe => "from:@me",
            Scope::ToMe => "to:@me",
        }
    }
}

/// `scopes` with `scope` appended unless it is already there.
pub open spec fn add_scope(scopes: Seq<Scope>, scope: Scope) -> Seq<Scope> {
    if scopes.contains(scope) {
        scopes
    } else {
        scopes.push(scope)
    }
}

/// The text of an optional string.
pub open spec fn opt_text(s: Option<String>) -> Option<Seq<char>> {
    match s {
        Some(t) => Some(t@),
        None => None,
    }
}

/// The (year, month, day) of an optional date.
pub open spec fn opt_date(d: Option<Date>) -> Option<(int, int, int)> {
    match d {
        Some(x) => Some(x@),
        None => None,
    }
}

/// The day Slack's exclusive `after:` names for an inclusive start date: the
/// day before it (the date itself when chrono has no earlier day).
pub open spec fn after_bound(from: (int, int, int)) -> (int, int, int) {
    match day_before(from) {
        Some(p) => p,
        None => from,
    }
}

/// The day Slack's exclusive `before:` names for an inclusive end date: the
/// day after it (the date itself when chrono has no later day).
pub open spec fn before_bound(to: (int, int, int)) -> (int, int, int) {
    match day_after(to) {
        Some(n) => n,
        None => to,
    }
}

/// The scope modifier of a query string, if it has one.
pub open spec fn scope_clause(scope: Option<Scope>) -> Seq<char> {
    match scope {
        Some(s) => modifier_text(s),
        None => Seq::empty(),
    }
}

/// ` in:#<channel>`, the channel taken without its leading `#`s.
pub open spec fn channel_clause(channel: Option<Seq<char>>) -> Seq<char> {
    match channel {
        Some(c) => " in:#"@ + strip_leading_hashes(c),
        None => Seq::empty(),
    }
}

/// ` after:<from - 1 day>` and ` before:<to + 1 day>`, each where set.
pub open spec fn dates_clause(from: Option<(int, int, int)>, to: Option<(int, int, int)>) -> Seq<
    char,
> {
    (match from {
        Some(f) => " after:"@ + ymd_text(after_bound(f)),
        None => Seq::empty(),
    }) + (match to {
        Some(t) => " before:"@ + ymd_text(before_bound(t)),
        None => Seq::empty(),
    })
}

/// ` <text>`, the free text verbatim.
pub open spec fn text_clause(text: Option<Seq<char>>) -> Seq<char> {
    match text {
        Some(t) => " "@ + t,
        None => Seq::empty(),
    }
}

/// One Slack search string: scope, `in:`, `after:`, `before:`, free text,
/// in that order, trimmed of surrounding whitespace.
pub open spec fn render_query(
    scope: Option<Scope>,
    channel: Option<Seq<char>>,
    from: Option<(int, int, int)>,
    to: Option<(int, int, int)>,
    text: Option<Seq<char>>,
) -> Seq<char> {
    trim_whitespace(
        scope_clause(scope) + channel_clause(channel) + dates_clause(from, to) + text_clause(text),
    )
}

/// The search string of `q` for one scope (or for none).
pub open spec fn query_for(q: SearchQuery, scope: Option<Scope>) -> Seq<char> {
    render_query(scope, opt_text(q.channel), opt_date(q.from), opt_date(q.to), opt_text(q.text))
}

/// The search strings of `q`: one per scope in order, or a single one without
/// a modifier when no scope is set.
pub open spec fn slack_queries(q: SearchQuery) -> Seq<Seq<char>> {
    if q.scopes@.len() == 0 {
        seq![query_for(q, None)]
    } else {
        Seq::new(q.scopes@.len(), |i: int| query_for(q, Some(q.scopes@[i])))
    }
}

/// A date-ranged Slack search.
///
/// Dates are inclusive; the rendering turns them into Slack's exclusive
/// `after:`/`before:` bounds (so `25..=31` becomes `after:<24> before:<+1>`).
#[derive(Debug, Clone)]
pub struct SearchQuery {
    pub text: Option<String>,
    pub scopes: Vec<Scope>,
    pub channel: Option<String>,
    pub from: Option<Date>,
    pub to: Option<Date>,
}

impl Default for SearchQuery {
    fn default() -> (r: Self)
        ensures
            r.text is None,
            r.scopes@ == Seq::<Scope>::empty(),
            r.channel is None,
            r.from is None,
            r.to is None,
    {
        SearchQuery { text: None, scopes: Vec::new(), channel: None, from: None, to: None }
    }
}

/// Whether `scope` is among `scopes`.
fn has_scope(scopes: &Vec<Scope>, scope: Scope) -> (r: bool)
    ensures
        r == scopes@.contains(scope),
{
    let mut i: usize = 0;
    while i < scopes.len()
        invariant
            i <= scopes.len(),
            forall|j: int| 0 <= j < i ==> scopes@[j] != scope,
        decreases scopes.len() - i,
    {
        if scopes[i] == scope {
            return true;
        }
        i += 1;
    }
    false
}

/// `prefix` followed by the chars of `s`.
fn with_prefix(prefix: &str, s: &Vec<char>) -> (r: Vec<char>)
    ensures
        r@ == prefix@ + s@,
{
    let mut v = chars_of(prefix);
    extend_chars(&mut v, s);
    v
}

/// The rendered date bounds of a query.
fn dates_chars(from: Option<Date>, to: Option<Date>) -> (r: Vec<char>)
    ensures
        r@ == dates_clause(opt_date(from), opt_date(to)),
{
    let mut out: Vec<char> = Vec::new();
    let ghost after_part: Seq<char> = Seq::empty();
    if let Some(f) = from {
        let after = match f.pred_opt() {
            Some(p) => p,
            None => f,
        };
        let text = after.format_ymd();
        out = with_prefix(" after:", &chars_of(text.as_str()));
        proof {
            after_part = out@;
        }
    }
    assert(out@ == after_part);
    if let Some(t) = to {
        let before = match t.succ_opt() {
            Some(n) => n,
            None => t,
        };
        let text = before.format_ymd();
        let part = with_prefix(" before:", &chars_of(text.as_str()));
        extend_chars(&mut out, &part);
    }
    assert(out@ =~= dates_clause(opt_date(from), opt_date(to)));
    out
}

/// Renders one search string from its already rendered clauses.
fn render_one(
    scope: Option<Scope>,
    channel: &Vec<char>,
    dates: &Vec<char>,
    text: &Vec<char>,
) -> (r: String)
    ensures
        r@ == trim_whitespace(scope_clause(scope) + channel@ + dates@ + text@),
{
    let mut q: Vec<char> = match scope {
        Some(s) => chars_of(s.modifier()),
        None => Vec::new(),
    };
    assert(q@ =~= scope_clause(scope));
    extend_chars(&mut q, channel);
    extend_chars(&mut q, dates);
    extend_chars(&mut q, text);
    string_from_chars(&trim_chars(&q))
}

impl SearchQuery {
    /// A query with no scope, channel, text or dates.
    pub fn new() -> (r: Self)
        ensures
            r.text is None,
            r.scopes@ == Seq::<Scope>::empty(),
            r.channel is None,
            r.from is None,
            r.to is None,
    {
        SearchQuery { text: None, scopes: Vec::new(), channel: None, from: None, to: None }
    }

    /// Include messages you sent (`from:@me`).
    pub fn mine(self) -> (r: Self)
        ensures
            r.scopes@ == add_scope(self.scopes@, Scope::FromMe),
            r.text == self.text,
            r.channel == self.channel,
            r.from == self.from,
            r.to == self.to,
    {
        let mut q = self;
        if !has_scope(&q.scopes, Scope::FromMe) {
            q.scopes.push(Scope::FromMe);
        }
        q
    }

    /// Include messages mentioning you or sent to you directly (`to:@me`).
    pub fn mentions(self) -> (r: Self)
        ensures
            r.scopes@ == add_scope(self.scopes@, Scope::ToMe),
            r.text == self.text,
            r.channel == self.channel,
            r.from == self.from,
            r.to == self.to,
    {
        let mut q = self;
        if !has_scope(&q.scopes, Scope::ToMe) {
            q.scopes.push(Scope::ToMe);
        }
        q
    }

    /// Inclusive date window.
    pub fn between(self, from: Date, to: Date) -> (r: Self)
        ensures
            r.from == Some(from),
            r.to == Some(to),
            r.text == self.text,
            r.scopes == self.scopes,
            r.channel == self.channel,
    {
        let mut q = self;
        q.from = Some(from);
        q.to = Some(to);
        q
    }

    /// Restrict to a channel (`in:#name`).
    pub fn in_channel(self, channel: &str) -> (r: Self)
        ensures
            opt_text(r.channel) == Some(channel@),
            r.text == self.text,
            r.scopes == self.scopes,
            r.from == self.from,
            r.to == self.to,
    {
        let mut q = self;
        q.channel = Some(String::from_str(channel));
        q
    }

    /// Free-text terms.
    pub fn text(self, text: &str) -> (r: Self)
        ensures
            opt_text(r.text) == Some(text@),
            r.channel == self.channel,
            r.scopes == self.scopes,
            r.from == self.from,
            r.to == self.to,
    {
        let mut q = self;
        q.text = Some(String::from_str(text));
        q
    }

    /// Scopes as the command line picks them: `--mine` and `--mentions` add
    /// their scopes, and with neither flag both are searched.
    pub fn with_scope_flags(self, mine: bool, mentions: bool) -> (r: Self)
        ensures
            r.scopes@ == (if !mine && !mentions {
                add_scope(add_scope(self.scopes@, Scope::FromMe), Scope::ToMe)
            } else {
                let s = if mine {
                    add_scope(self.scopes@, Scope::FromMe)
                } else {
                    self.scopes@
                };
                if mentions {
                    add_scope(s, Scope::ToMe)
                } else {
                    s
                }
            }),
            r.text == self.text,
            r.channel == self.channel,
            r.from == self.from,
            r.to == self.to,
    {
        let mut q = self;
        if mine || !mentions {
            q = q.mine();
        }
        if mentions || !mine {
            q = q.mentions();
        }
        q
    }

    /// Render to one Slack search string per scope (or a single string when no
    /// scope is set). Inclusive `from`/`to` become exclusive `after:`/`before:`.
    pub fn to_slack_queries(&self) -> (r: Vec<String>)
        ensures
            r.len() == slack_queries(*self).len(),
            r.len() == (if self.scopes.len() == 0 {
                1
            } else {
                self.scopes.len()
            }),
            forall|i: int| 0 <= i < r.len() ==> #[trigger] r[i]@ == slack_queries(*self)[i],
    {
        let dates = dates_chars(self.from, self.to);
        let channel: Vec<char> = match &self.channel {
            Some(c) => with_prefix(" in:#", &strip_hashes(&chars_of(c.as_str()))),
            None => Vec::new(),
        };
        assert(channel@ == channel_clause(opt_text(self.channel)));
        let text: Vec<char> = match &self.text {
            Some(t) => with_prefix(" ", &chars_of(t.as_str())),
            None => Vec::new(),
        };
        assert(text@ == text_clause(opt_text(self.text)));
        let ghost want = slack_queries(*self);
        let mut out: Vec<String> = Vec::new();
        if self.scopes.len() == 0 {
            out.push(render_one(None, &channel, &dates, &text));
            return out;
        }
        let mut i: usize = 0;
        while i < self.scopes.len()
            invariant
                i <= self.scopes.len(),
                self.scopes.len() > 0,
                want == slack_queries(*self),
                channel@ == channel_clause(opt_text(self.channel)),
                dates@ == dates_clause(opt_date(self.from), opt_date(self.to)),
                text@ == text_clause(opt_text(self.text)),
                out.len() == i,
                forall|j: int| 0 <= j < i ==> #[trigger] out[j]@ == want[j],
            decreases self.scopes.len() - i,
        {
            let s = render_one(Some(self.scopes[i]), &channel, &dates, &text);
            out.push(s);
            i += 1;
        }
        out
    }
}


/// Adding a scope twice is adding it once: `q.mine().mine()` has the scopes
/// of `q.mine()`, and likewise for `mentions`.
pub proof fn law_add_scope_idempotent(scopes: Seq<Scope>, scope: Scope)
    ensures
        add_scope(add_scope(scopes, scope), scope) == add_scope(scopes, scope),
{
    if !scopes.contains(scope) {
        assert(scopes.push(scope)[scopes.len() as int] == scope);
    }
}

/// After adding a scope it is present, the scopes already there keep their
/// places, and a list without repeats stays without repeats.
pub proof fn law_add_scope_keeps_order(scopes: Seq<Scope>, scope: Scope)
    ensures
        add_scope(scopes, scope).contains(scope),
        scopes.is_prefix_of(add_scope(scopes, scope)),
        scopes.no_duplicates() ==> add_scope(scopes, scope).no_duplicates(),
{
    if !scopes.contains(scope) {
        assert(scopes.push(scope)[scopes.len() as int] == scope);
        assert(scopes.is_prefix_of(scopes.push(scope)));
    }
}

/// A channel given with leading `#`s renders as the same `in:#` clause as
/// the bare name.
pub proof fn law_channel_hash_prefix_normalized(channel: Seq<char>)
    ensures
        channel_clause(Some(seq!['#'] + channel)) == channel_clause(Some(channel)),
        channel_clause(Some(strip_leading_hashes(channel))) == channel_clause(Some(channel)),
{
    assert((seq!['#'] + channel).skip(1) =~= channel);
    lemma_strip_idempotent(channel);
}

/// Stripping leading `#`s twice strips nothing more.
proof fn lemma_strip_idempotent(s: Seq<char>)
    ensures
        strip_leading_hashes(strip_leading_hashes(s)) == strip_leading_hashes(s),
    decreases s.len(),
{
    if s.len() > 0 && s[0] == '#' {
        lemma_strip_idempotent(s.skip(1));
    }
}

/// Inclusive to exclusive: the day named by `after:` is the day right before
/// the first day of the window, and the day named by `before:` is the day
/// right after its last day, wherever chrono has those days.
pub proof fn law_bounds_are_adjacent_days(from: (int, int, int), to: (int, int, int))
    requires
        is_valid_ymd(from),
        is_valid_ymd(to),
    ensures
        day_before(from) is Some ==> day_after(after_bound(from)) == Some(from),
        day_after(to) is Some ==> day_before(before_bound(to)) == Some(to),
{
}

/// Every per-scope search string starts with its scope's modifier.
pub proof fn law_scoped_query_starts_with_modifier(q: SearchQuery, scope: Scope)
    ensures
        modifier_text(scope).is_prefix_of(query_for(q, Some(scope))),
        scope == Scope::FromMe ==> "from:@me"@.is_prefix_of(query_for(q, Some(scope))),
        scope == Scope::ToMe ==> "to:@me"@.is_prefix_of(query_for(q, Some(scope))),
{
    reveal_strlit("from:@me");
    reveal_strlit("to:@me");
    let m = modifier_text(scope);
    let rest = channel_clause(opt_text(q.channel)) + dates_clause(opt_date(q.from), opt_date(q.to))
        + text_clause(opt_text(q.text));
    let whole = scope_clause(Some(scope)) + channel_clause(opt_text(q.channel)) + dates_clause(
        opt_date(q.from),
        opt_date(q.to),
    ) + text_clause(opt_text(q.text));
    assert(whole =~= m + rest);
    assert((m + rest)[0] == m[0]);
    lemma_trim_start_stops(m + rest);
    lemma_trim_end_keeps_prefix(m, rest);
}


/// The `after:` day is a real date, the day right before the first day of
/// the window, and the `before:` day is a real date, the day right after its
/// last day (each where chrono has that day; otherwise the window's own end).
pub proof fn law_bounds_are_real_neighbouring_days(from: (int, int, int), to: (int, int, int))
    requires
        is_valid_ymd(from),
        is_valid_ymd(to),
    ensures
        is_valid_ymd(after_bound(from)),
        is_valid_ymd(before_bound(to)),
        day_before(from) is Some ==> day_index(after_bound(from)) + 1 == day_index(from),
        day_after(to) is Some ==> day_index(before_bound(to)) == day_index(to) + 1,
        day_before(from) is None ==> after_bound(from) == from,
        day_after(to) is None ==> before_bound(to) == to,
{
    if day_before(from) is Some {
        lemma_day_before_index(from);
    }
    if day_after(to) is Some {
        lemma_day_after_index(to);
    }
}

/// The last char of a date's `%Y-%m-%d` text is a digit, not whitespace.
proof fn lemma_ymd_text_ends_in_digit(d: (int, int, int))
    requires
        is_valid_ymd(d),
    ensures
        ymd_text(d).len() > 0,
        !is_whitespace_char(ymd_text(d).last()),
{
    lemma_two_digits(d.2);
    let t = ymd_text(d);
    assert(t.last() == zero_padded(d.2 as nat, 2)[1]);
}

/// The search string of a query with an end date holds `before:` and the
/// text of its `before:` day.
proof fn lemma_query_holds_before(q: SearchQuery, scope: Option<Scope>)
    requires
        q.to is Some,
        is_valid_ymd(q.to->0@),
    ensures
        occurs_in("before:"@ + ymd_text(before_bound(q.to->0@)), query_for(q, scope)),
{
    reveal_strlit("before:");
    reveal_strlit(" before:");
    let t = q.to->0@;
    let head = scope_clause(scope) + channel_clause(opt_text(q.channel)) + (match opt_date(
        q.from,
    ) {
        Some(f) => " after:"@ + ymd_text(after_bound(f)),
        None => Seq::<char>::empty(),
    });
    let d = before_bound(t);
    let w = "before:"@ + ymd_text(d);
    let raw = head + (seq![' '] + w) + text_clause(opt_text(q.text));
    assert(" before:"@ =~= seq![' '] + "before:"@);
    assert(raw =~= scope_clause(scope) + channel_clause(opt_text(q.channel)) + dates_clause(
        opt_date(q.from),
        opt_date(q.to),
    ) + text_clause(opt_text(q.text)));
    law_bounds_are_real_neighbouring_days(t, t);
    lemma_ymd_text_ends_in_digit(d);
    let k: int = (head.len() + 1) as int;
    assert(raw.subrange(k, k + w.len()) =~= w);
    assert(w[0] == 'b');
    assert(w.last() == ymd_text(d).last());
    lemma_trim_keeps_inner_run(raw, w, k);
}

/// The search string of a query with a start date holds `after:` and the
/// text of its `after:` day.
proof fn lemma_query_holds_after(q: SearchQuery, scope: Option<Scope>)
    requires
        q.from is Some,
        is_valid_ymd(q.from->0@),
    ensures
        occurs_in("after:"@ + ymd_text(after_bound(q.from->0@)), query_for(q, scope)),
{
    reveal_strlit("after:");
    reveal_strlit(" after:");
    let f = q.from->0@;
    let head = scope_clause(scope) + channel_clause(opt_text(q.channel));
    let d = after_bound(f);
    let w = "after:"@ + ymd_text(d);
    let rest = (match opt_date(q.to) {
        Some(t) => " before:"@ + ymd_text(before_bound(t)),
        None => Seq::<char>::empty(),
    }) + text_clause(opt_text(q.text));
    let raw = head + (seq![' '] + w) + rest;
    assert(" after:"@ =~= seq![' '] + "after:"@);
    assert(raw =~= scope_clause(scope) + channel_clause(opt_text(q.channel)) + dates_clause(
        opt_date(q.from),
        opt_date(q.to),
    ) + text_clause(opt_text(q.text)));
    law_bounds_are_real_neighbouring_days(f, f);
    lemma_ymd_text_ends_in_digit(d);
    let k: int = (head.len() + 1) as int;
    assert(raw.subrange(k, k + w.len()) =~= w);
    assert(w[0] == 'a');
    assert(w.last() == ymd_text(d).last());
    lemma_trim_keeps_inner_run(raw, w, k);
}

/// Every search string of a query with an end date names, after
/// `before:`, the real date right after that end date; with a start date it
/// names, after `after:`, the real date right before it.
pub proof fn law_queries_name_neighbouring_days(q: SearchQuery, scope: Option<Scope>)
    requires
        q.from matches Some(f) ==> is_valid_ymd(f@),
        q.to matches Some(t) ==> is_valid_ymd(t@),
    ensures
        q.to is Some && day_after(q.to->0@) is Some ==> exists|d: (int, int, int)|
            is_valid_ymd(d) && day_index(d) == day_index(q.to->0@) + 1 && #[trigger] occurs_in(
                "before:"@ + ymd_text(d),
                query_for(q, scope),
            ),
        q.from is Some && day_before(q.from->0@) is Some ==> exists|d: (int, int, int)|
            is_valid_ymd(d) && day_index(d) + 1 == day_index(q.from->0@) && #[trigger] occurs_in(
                "after:"@ + ymd_text(d),
                query_for(q, scope),
            ),
{
    if q.to is Some && day_after(q.to->0@) is Some {
        let t = q.to->0@;
        lemma_query_holds_before(q, scope);
        law_bounds_are_real_neighbouring_days(t, t);
        let d = before_bound(t);
        assert(is_valid_ymd(d) && day_index(d) == day_index(t) + 1 && occurs_in(
            "before:"@ + ymd_text(d),
            query_for(q, scope),
        ));
    }
    if q.from is Some && day_before(q.from->0@) is Some {
        let f = q.from->0@;
        lemma_query_holds_after(q, scope);
        law_bounds_are_real_neighbouring_days(f, f);
        let d = after_bound(f);
        assert(is_valid_ymd(d) && day_index(d) + 1 == day_index(f) && occurs_in(
            "after:"@ + ymd_text(d),
            query_for(q, scope),
        ));
    }
}

/// A query with scopes gets one search string per scope, in the order of
/// its scopes, each opening with that scope's modifier.
pub proof fn law_one_query_per_scope(q: SearchQuery)
    requires
        q.scopes@.len() > 0,
    ensures
        slack_queries(q).len() == q.scopes@.len(),
        forall|i: int|
            0 <= i < q.scopes@.len() ==> modifier_text(q.scopes@[i]).is_prefix_of(
                #[trigger] slack_queries(q)[i],
            ),
{
    assert forall|i: int| 0 <= i < q.scopes@.len() implies modifier_text(
        q.scopes@[i],
    ).is_prefix_of(#[trigger] slack_queries(q)[i]) by {
        law_scoped_query_starts_with_modifier(q, q.scopes@[i]);
    }
}

/// Every search string of a query restricted to a channel holds `in:#` and
/// the channel's name (given without `#` and not ending in whitespace), and
/// holds the free text (not starting or ending with whitespace) verbatim.
pub proof fn law_queries_hold_channel_and_text(q: SearchQuery, scope: Option<Scope>)
    ensures
        q.channel is Some && q.channel->0@.len() > 0 && q.channel->0@[0] != '#'
            && !is_whitespace_char(q.channel->0@.last()) ==> occurs_in(
            "in:#"@ + q.channel->0@,
            query_for(q, scope),
        ),
        q.text is Some && q.text->0@.len() > 0 && !is_whitespace_char(q.text->0@[0])
            && !is_whitespace_char(q.text->0@.last()) ==> occurs_in(
            q.text->0@,
            query_for(q, scope),
        ),
{
    reveal_strlit("in:#");
    reveal_strlit(" in:#");
    reveal_strlit(" ");
    let sc = scope_clause(scope);
    let dc = dates_clause(opt_date(q.from), opt_date(q.to));
    let tc = text_clause(opt_text(q.text));
    if q.channel is Some {
        let c = q.channel->0@;
        if c.len() > 0 && c[0] != '#' && !is_whitespace_char(c.last()) {
            assert(strip_leading_hashes(c) == c);
            let w = "in:#"@ + c;
            let raw = sc + (seq![' '] + w) + (dc + tc);
            assert(" in:#"@ =~= seq![' '] + "in:#"@);
            assert(raw =~= sc + channel_clause(opt_text(q.channel)) + dc + tc);
            let k: int = (sc.len() + 1) as int;
            assert(raw.subrange(k, k + w.len()) =~= w);
            assert(w[0] == 'i');
            assert(w.last() == c.last());
            lemma_trim_keeps_inner_run(raw, w, k);
        }
    }
    if q.text is Some {
        let t = q.text->0@;
        if t.len() > 0 && !is_whitespace_char(t[0]) && !is_whitespace_char(t.last()) {
            let head = sc + channel_clause(opt_text(q.channel)) + dc + seq![' '];
            let raw = head + t;
            assert(raw =~= sc + channel_clause(opt_text(q.channel)) + dc + tc);
            let k: int = head.len() as int;
            assert(raw.subrange(k, k + t.len()) =~= t);
            lemma_trim_keeps_inner_run(raw, t, k);
        }
    }
}

} // verus!
