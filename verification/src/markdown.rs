use vstd::prelude::*;
use vstd::string::*;

verus! {

/// How a link was written.
#[derive(Debug, Clone, Copy, PartialEq, Eq, Structural)]
pub enum LinkKind {
    /// `[text](href "title")`
    Inline,
    /// `[text][label]`
    Reference,
    /// `[text][label]` whose label is not defined
    ReferenceUnknown,
    /// `[label][]`
    Collapsed,
    /// `[label][]` whose label is not defined
    CollapsedUnknown,
    /// `[label]`
    Shortcut,
    /// `[label]` whose label is not defined
    ShortcutUnknown,
    /// `<https://example.org>`
    Autolink,
    /// `<someone@example.org>`
    Email,
}

/// How a code block was written.
#[derive(Debug)]
pub enum CodeBlockKind {
    /// Indented by four spaces.
    Indented,
    /// Between fences, with the language written after the opening fence.
    Fenced(String),
}

/// The tag of a start or end event, as far as the transform reads it.
#[derive(Debug)]
pub enum MdTag {
    Link { kind: LinkKind, href: String, title: String },
    CodeBlock(CodeBlockKind),
    /// Any other tag.
    Other,
}

/// What the transform reads of an event.
#[derive(Debug)]
pub enum MdEventKind {
    Start(MdTag),
    End(MdTag),
    Text(String),
    Other,
}

/// An event of the stream: what the transform reads of it, and the event
/// itself, which the transform hands on untouched where it passes it through.
#[derive(Debug)]
pub struct MdEvent<E> {
    pub kind: MdEventKind,
    pub raw: E,
}

/// What the transform emits: an event of the input, or a component that
/// stands for a whole inline link or fenced code block.
#[derive(Debug)]
pub enum MdOutput<E> {
    Event(E),
    Link { href: String, title: String, children: Vec<String> },
    CodeBlock { language: String, code: String },
}

/// The mathematical value of an `MdOutput`.
pub enum Emitted<E> {
    Event(E),
    Link { href: Seq<char>, title: Seq<char>, children: Seq<Seq<char>> },
    CodeBlock { language: Seq<char>, code: Seq<char> },
}

impl<E> View for MdOutput<E> {
    type V = Emitted<E>;

    open spec fn view(&self) -> Emitted<E> {
        match self {
            MdOutput::Event(e) => Emitted::Event(*e),
            MdOutput::Link { href, title, children } => Emitted::Link {
                href: href@,
                title: title@,
                children: children@.map_values(|c: String| c@),
            },
            MdOutput::CodeBlock { language, code } => Emitted::CodeBlock {
                language: language@,
                code: code@,
            },
        }
    }
}

/// The values of a sequence of outputs.
pub open spec fn emitted<E>(outs: Seq<MdOutput<E>>) -> Seq<Emitted<E>> {
    outs.map_values(|o: MdOutput<E>| o@)
}

/// Inline links and fenced code blocks are the elements that become components.
pub open spec fn is_element(tag: MdTag) -> bool {
    ||| tag matches MdTag::Link { kind: LinkKind::Inline, .. }
    ||| tag matches MdTag::CodeBlock(CodeBlockKind::Fenced(_))
}

/// The text that `e` carries, as a sequence of zero or one strings.
pub open spec fn text_of<E>(e: MdEvent<E>) -> Seq<Seq<char>> {
    match e.kind {
        MdEventKind::Text(t) => seq![t@],
        _ => seq![],
    }
}

/// The texts of `buf`, the most recently buffered first.
pub open spec fn texts_newest_first<E>(buf: Seq<MdEvent<E>>) -> Seq<Seq<char>>
    decreases buf.len(),
{
    if buf.len() == 0 {
        seq![]
    } else {
        texts_newest_first(buf.drop_first()) + text_of(buf[0])
    }
}

/// The events of `buf`, passed through in the order they came.
pub open spec fn passed_through<E>(buf: Seq<MdEvent<E>>) -> Seq<Emitted<E>> {
    buf.map_values(|e: MdEvent<E>| Emitted::Event(e.raw))
}

/// The White_Space property of Unicode, by which `char::is_whitespace` and
/// `str::trim` decide what whitespace is: U+0009 to U+000D, U+0020, U+0085,
/// U+00A0, U+1680, U+2000 to U+200A, U+2028, U+2029, U+202F, U+205F, U+3000.
pub open spec fn white_space(c: char) -> bool {
    let u = c as u32;
    ||| 0x09 <= u <= 0x0d
    ||| u == 0x20
    ||| u == 0x85
    ||| u == 0xa0
    ||| u == 0x1680
    ||| 0x2000 <= u <= 0x200a
    ||| u == 0x2028
    ||| u == 0x2029
    ||| u == 0x202f
    ||| u == 0x205f
    ||| u == 0x3000
}

/// `s` without its leading whitespace.
pub open spec fn trim_start(s: Seq<char>) -> Seq<char>
    decreases s.len(),
{
    if s.len() > 0 && white_space(s[0]) {
        trim_start(s.drop_first())
    } else {
        s
    }
}

/// `s` without its trailing whitespace.
pub open spec fn trim_end(s: Seq<char>) -> Seq<char>
    decreases s.len(),
{
    if s.len() > 0 && white_space(s.last()) {
        trim_end(s.drop_last())
    } else {
        s
    }
}

/// `s` without its leading and trailing whitespace.
pub open spec fn trim(s: Seq<char>) -> Seq<char> {
    trim_end(trim_start(s))
}

/// `s` with every trailing copy of `pat` removed, one after another.
pub open spec fn strip_suffixes(s: Seq<char>, pat: Seq<char>) -> Seq<char>
    decreases s.len(),
{
    if 0 < pat.len() <= s.len() && s.subrange(s.len() - pat.len(), s.len() as int) == pat {
        strip_suffixes(s.subrange(0, s.len() - pat.len()), pat)
    } else {
        s
    }
}

/// The fence that closes a code block: three backticks.
pub open spec fn fence() -> Seq<char> {
    seq!['`', '`', '`']
}

/// The code that a fenced code block renders: its buffered texts, the most
/// recent first, joined, trimmed, and without trailing fences.
pub open spec fn code_of<E>(buf: Seq<MdEvent<E>>) -> Seq<char> {
    strip_suffixes(trim(texts_newest_first(buf).flatten_alt()), fence())
}

/// Where the transform stands after a prefix of the stream: the events held
/// back inside an element, whether an element is open, and what it emitted.
pub struct ScanState<E> {
    pub buffer: Seq<MdEvent<E>>,
    pub in_element: bool,
    pub out: Seq<Emitted<E>>,
}

/// One step of the transform.
pub open spec fn step<E>(s: ScanState<E>, e: MdEvent<E>) -> ScanState<E> {
    match e.kind {
        MdEventKind::Start(tag) => if is_element(tag) {
            ScanState { buffer: s.buffer.push(e), in_element: true, out: s.out }
        } else {
            ScanState { buffer: s.buffer, in_element: s.in_element, out: s.out.push(Emitted::Event(e.raw)) }
        },
        MdEventKind::End(tag) => {
            let emitted = match tag {
                MdTag::Link { kind: LinkKind::Inline, href, title } => seq![
                    Emitted::Link { href: href@, title: title@, children: texts_newest_first(s.buffer) },
                ],
                MdTag::CodeBlock(CodeBlockKind::Fenced(language)) => seq![
                    Emitted::CodeBlock { language: language@, code: code_of(s.buffer) },
                ],
                _ => passed_through(s.buffer.push(e)),
            };
            ScanState { buffer: seq![], in_element: false, out: s.out + emitted }
        },
        _ => if s.in_element {
            ScanState { buffer: s.buffer.push(e), in_element: s.in_element, out: s.out }
        } else {
            ScanState { buffer: s.buffer, in_element: s.in_element, out: s.out.push(Emitted::Event(e.raw)) }
        },
    }
}

/// The state at the start of a stream.
pub open spec fn start_state<E>() -> ScanState<E> {
    ScanState { buffer: seq![], in_element: false, out: seq![] }
}

/// The state after the transform has read `events`.
pub open spec fn scan<E>(events: Seq<MdEvent<E>>) -> ScanState<E>
    decreases events.len(),
{
    if events.len() == 0 {
        start_state()
    } else {
        step(scan(events.drop_last()), events.last())
    }
}

/// Removes leading and trailing whitespace with `str::trim`, whose
/// documentation defines whitespace by the White_Space property of Unicode.
#[verifier::external_body]
fn trim_str(s: &str) -> (r: &str)
    ensures
        r@ == trim(s@),
        r@.len() > 0 ==> !white_space(r@[0]) && !white_space(r@.last()),
{
    s.trim()
}

/// Removes every trailing copy of `pat`, one after another, with
/// `str::trim_end_matches`.
#[verifier::external_body]
fn trim_end_matches_str<'a>(s: &'a str, pat: &str) -> (r: &'a str)
    requires
        pat@.len() > 0,
    ensures
        r@ == strip_suffixes(s@, pat@),
{
    s.trim_end_matches(pat)
}

proof fn lemma_emitted_push<E>(outs: Seq<MdOutput<E>>, o: MdOutput<E>)
    ensures
        emitted(outs.push(o)) == emitted(outs).push(o@),
{
    assert(emitted(outs.push(o)) =~= emitted(outs).push(o@));
}

fn is_element_tag(tag: &MdTag) -> (b: bool)
    ensures
        b == is_element(*tag),
{
    match tag {
        MdTag::Link { kind: LinkKind::Inline, .. } => true,
        MdTag::CodeBlock(CodeBlockKind::Fenced(_)) => true,
        _ => false,
    }
}

/// The texts held back in `buffer`, the most recently buffered first.
fn link_children<E>(buffer: &Vec<MdEvent<E>>) -> (children: Vec<String>)
    ensures
        children@.map_values(|c: String| c@) == texts_newest_first(buffer@),
{
    let mut children: Vec<String> = Vec::new();
    let mut i = buffer.len();
    while i > 0
        invariant
            i <= buffer@.len(),
            children@.map_values(|c: String| c@) == texts_newest_first(buffer@.skip(i as int)),
        decreases i,
    {
        i = i - 1;
        let ghost before = children@;
        assert(buffer@.skip(i as int).drop_first() =~= buffer@.skip(i + 1));
        assert(buffer@.skip(i as int)[0] == buffer@[i as int]);
        match &buffer[i].kind {
            MdEventKind::Text(t) => {
                children.push(t.clone());
                assert(children@.map_values(|c: String| c@) =~= before.map_values(|c: String| c@)
                    + seq![t@]);
            },
            _ => {
                assert(before.map_values(|c: String| c@) =~= before.map_values(|c: String| c@)
                    + seq![]);
            },
        }
    }
    assert(buffer@.skip(0) =~= buffer@);
    children
}

/// The code of a fenced code block whose events are held back in `buffer`.
fn code_block_text<E>(buffer: &Vec<MdEvent<E>>) -> (code: String)
    ensures
        code@ == code_of(buffer@),
{
    let mut joined = String::new();
    let mut i = buffer.len();
    while i > 0
        invariant
            i <= buffer@.len(),
            joined@ == texts_newest_first(buffer@.skip(i as int)).flatten_alt(),
        decreases i,
    {
        i = i - 1;
        let ghost before = texts_newest_first(buffer@.skip(i + 1));
        assert(buffer@.skip(i as int).drop_first() =~= buffer@.skip(i + 1));
        assert(buffer@.skip(i as int)[0] == buffer@[i as int]);
        match &buffer[i].kind {
            MdEventKind::Text(t) => {
                joined.append(t.as_str());
                assert((before + seq![t@]).drop_last() =~= before);
            },
            _ => {
                assert(before + seq![] =~= before);
            },
        }
    }
    assert(buffer@.skip(0) =~= buffer@);
    let trimmed = trim_str(joined.as_str());
    proof {
        reveal_strlit("```");
    }
    let code = trim_end_matches_str(trimmed, "```");
    assert("```"@ =~= fence());
    code.to_owned()
}

/// Appends the events held back in `buffer` to `out`, in the order they came.
fn pass_through<E>(buffer: Vec<MdEvent<E>>, out: &mut Vec<MdOutput<E>>)
    ensures
        emitted(final(out)@) == emitted(old(out)@) + passed_through(buffer@),
{
    let ghost buf = buffer@;
    for e in it: buffer
        invariant
            it.seq() == buf,
            emitted(out@) == emitted(old(out)@) + passed_through(buf.take(it.index() as int)),
    {
        let ghost before = emitted(out@);
        proof {
            lemma_emitted_push(out@, MdOutput::Event(e.raw));
        }
        out.push(MdOutput::Event(e.raw));
        assert(passed_through(buf.take(it.index() + 1)) =~= passed_through(
            buf.take(it.index() as int),
        ).push(Emitted::Event(e.raw)));
    }
    assert(buf.take(buf.len() as int) =~= buf);
}

/// Turns each inline link and each fenced code block of `events` into one
/// component, and passes the other events through: the events between the
/// start of such an element and the next end event are held back; at the end
/// of a link its texts become the component's children, at the end of a code
/// block they become its code, and at any other end they are passed through.
pub fn extend_parse<E>(events: Vec<MdEvent<E>>) -> (out: Vec<MdOutput<E>>)
    ensures
        emitted(out@) == scan(events@).out,
{
    let ghost evs = events@;
    let mut buffer: Vec<MdEvent<E>> = Vec::new();
    let mut in_element = false;
    let mut out: Vec<MdOutput<E>> = Vec::new();
    for e in it: events
        invariant
            it.seq() == evs,
            scan(evs.take(it.index() as int)).buffer == buffer@,
            scan(evs.take(it.index() as int)).in_element == in_element,
            scan(evs.take(it.index() as int)).out == emitted(out@),
    {
        let ghost k = it.index();
        let ghost s = scan(evs.take(k as int));
        let ghost ev = e;
        assert(evs.take(k + 1).drop_last() =~= evs.take(k as int));
        assert(evs.take(k + 1).last() == ev);
        assert(scan(evs.take(k + 1)) == step(s, ev));
        match e.kind {
            MdEventKind::Start(tag) => {
                if is_element_tag(&tag) {
                    buffer.push(MdEvent { kind: MdEventKind::Start(tag), raw: e.raw });
                    in_element = true;
                } else {
                    proof {
                        lemma_emitted_push(out@, MdOutput::Event(e.raw));
                    }
                    out.push(MdOutput::Event(e.raw));
                }
            },
            MdEventKind::End(MdTag::Link { kind: LinkKind::Inline, href, title }) => {
                let children = link_children(&buffer);
                let o = MdOutput::Link { href, title, children };
                proof {
                    lemma_emitted_push(out@, o);
                }
                out.push(o);
                buffer = Vec::new();
                in_element = false;
            },
            MdEventKind::End(MdTag::CodeBlock(CodeBlockKind::Fenced(language))) => {
                let code = code_block_text(&buffer);
                let o = MdOutput::CodeBlock { language, code };
                proof {
                    lemma_emitted_push(out@, o);
                }
                out.push(o);
                buffer = Vec::new();
                in_element = false;
            },
            MdEventKind::End(tag) => {
                let mut held: Vec<MdEvent<E>> = Vec::new();
                std::mem::swap(&mut held, &mut buffer);
                held.push(MdEvent { kind: MdEventKind::End(tag), raw: e.raw });
                pass_through(held, &mut out);
                in_element = false;
            },
            kind => {
                if in_element {
                    buffer.push(MdEvent { kind, raw: e.raw });
                } else {
                    proof {
                        lemma_emitted_push(out@, MdOutput::Event(e.raw));
                    }
                    out.push(MdOutput::Event(e.raw));
                }
            },
        }
    }
    assert(evs.take(evs.len() as int) =~= evs);
    out
}

/// `e` starts or ends an inline link or a fenced code block.
pub open spec fn marks_element<E>(e: MdEvent<E>) -> bool {
    match e.kind {
        MdEventKind::Start(tag) => is_element(tag),
        MdEventKind::End(tag) => is_element(tag),
        _ => false,
    }
}

/// `e` ends an inline link or a fenced code block.
pub open spec fn ends_element<E>(e: MdEvent<E>) -> bool {
    match e.kind {
        MdEventKind::End(tag) => is_element(tag),
        _ => false,
    }
}

/// `e` neither starts nor ends anything: a text or another event.
pub open spec fn is_content<E>(e: MdEvent<E>) -> bool {
    e.kind is Text || e.kind is Other
}

/// `o` is a component, not an event passed through.
pub open spec fn is_component<E>(o: Emitted<E>) -> bool {
    !(o is Event)
}

/// A stream in which no inline link and no fenced code block starts or ends
/// comes out unchanged: every event is passed through, in order.
pub proof fn lemma_stream_without_elements_passes_through<E>(events: Seq<MdEvent<E>>)
    requires
        forall|i: int| 0 <= i < events.len() ==> !marks_element(#[trigger] events[i]),
    ensures
        scan(events).out == passed_through(events),
        scan(events).buffer == Seq::<MdEvent<E>>::empty(),
        !scan(events).in_element,
    decreases events.len(),
{
    if events.len() > 0 {
        let rest = events.drop_last();
        let e = events.last();
        assert(!marks_element(events[events.len() - 1]));
        assert forall|i: int| 0 <= i < rest.len() implies !marks_element(#[trigger] rest[i]) by {
            assert(rest[i] == events[i]);
        }
        lemma_stream_without_elements_passes_through(rest);
        assert(passed_through(events) =~= passed_through(rest).push(Emitted::Event(e.raw)));
        assert(passed_through(Seq::<MdEvent<E>>::empty().push(e)) =~= seq![Emitted::Event(e.raw)]);
    }
}

/// What one step adds to the output holds one component when the event ends
/// an element, and none otherwise.
proof fn lemma_step_components<E>(s: ScanState<E>, e: MdEvent<E>)
    ensures
        s.out.is_prefix_of(step(s, e).out),
        step(s, e).out.subrange(s.out.len() as int, step(s, e).out.len() as int).filter(
            |o: Emitted<E>| is_component(o),
        ).len() == if ends_element(e) {
            1int
        } else {
            0int
        },
{
    let pc = |o: Emitted<E>| is_component(o);
    let t = step(s, e);
    let added = t.out.subrange(s.out.len() as int, t.out.len() as int);
    reveal_with_fuel(Seq::filter, 2);
    match e.kind {
        MdEventKind::Start(tag) => {
            if !is_element(tag) {
                assert(added =~= seq![Emitted::Event(e.raw)]);
            } else {
                assert(added =~= Seq::<Emitted<E>>::empty());
            }
        },
        MdEventKind::End(MdTag::Link { kind: LinkKind::Inline, href, title }) => {
            assert(added =~= seq![
                Emitted::Link { href: href@, title: title@, children: texts_newest_first(s.buffer) },
            ]);
        },
        MdEventKind::End(MdTag::CodeBlock(CodeBlockKind::Fenced(language))) => {
            assert(added =~= seq![Emitted::CodeBlock { language: language@, code: code_of(s.buffer) }]);
        },
        MdEventKind::End(_) => {
            assert(added =~= passed_through(s.buffer.push(e)));
            assert forall|i: int| 0 <= i < added.len() implies !pc(#[trigger] added[i]) by {}
            added.lemma_all_neg_filter_empty(pc);
        },
        _ => {
            if s.in_element {
                assert(added =~= Seq::<Emitted<E>>::empty());
            } else {
                assert(added =~= seq![Emitted::Event(e.raw)]);
            }
        },
    }
}

/// The transform emits exactly one component for each end of an inline link
/// or a fenced code block, and none for anything else.
pub proof fn lemma_one_component_per_element_end<E>(events: Seq<MdEvent<E>>)
    ensures
        scan(events).out.filter(|o: Emitted<E>| is_component(o)).len() == events.filter(
            |e: MdEvent<E>| ends_element(e),
        ).len(),
    decreases events.len(),
{
    let pc = |o: Emitted<E>| is_component(o);
    let pe = |e: MdEvent<E>| ends_element(e);
    if events.len() == 0 {
        assert(scan(events).out.filter(pc) =~= Seq::<Emitted<E>>::empty());
        assert(events.filter(pe) =~= Seq::<MdEvent<E>>::empty());
    } else {
        let rest = events.drop_last();
        let e = events.last();
        lemma_one_component_per_element_end(rest);
        let s = scan(rest);
        assert(events =~= rest + seq![e]);
        Seq::filter_distributes_over_add(rest, seq![e], pe);
        reveal_with_fuel(Seq::filter, 2);
        let t = step(s, e);
        lemma_step_components(s, e);
        let added = t.out.subrange(s.out.len() as int, t.out.len() as int);
        assert(t.out =~= s.out + added);
        Seq::filter_distributes_over_add(s.out, added, pc);
    }
}

/// Nothing is held back outside an element.
pub proof fn lemma_nothing_held_outside_elements<E>(events: Seq<MdEvent<E>>)
    ensures
        !scan(events).in_element ==> scan(events).buffer == Seq::<MdEvent<E>>::empty(),
    decreases events.len(),
{
    if events.len() > 0 {
        lemma_nothing_held_outside_elements(events.drop_last());
    }
}

/// While an element is open and only content comes, the content is held
/// back and nothing is emitted.
proof fn lemma_content_is_held_back<E>(
    before: ScanState<E>,
    prefix: Seq<MdEvent<E>>,
    body: Seq<MdEvent<E>>,
)
    requires
        scan(prefix).in_element,
        scan(prefix) == before,
        forall|i: int| 0 <= i < body.len() ==> is_content(#[trigger] body[i]),
    ensures
        scan(prefix + body) == (ScanState { buffer: before.buffer + body, in_element: true, out: before.out }),
    decreases body.len(),
{
    if body.len() == 0 {
        assert(prefix + body =~= prefix);
        assert(before.buffer + body =~= before.buffer);
    } else {
        let rest = body.drop_last();
        assert forall|i: int| 0 <= i < rest.len() implies is_content(#[trigger] rest[i]) by {
            assert(rest[i] == body[i]);
        }
        lemma_content_is_held_back(before, prefix, rest);
        assert(is_content(body[body.len() - 1]));
        assert((prefix + body).drop_last() =~= prefix + rest);
        assert((prefix + body).last() == body.last());
        assert(before.buffer + body =~= (before.buffer + rest).push(body.last()));
    }
}

/// The texts of a buffer that begins with an event that carries no text.
proof fn lemma_texts_after_start<E>(start: MdEvent<E>, body: Seq<MdEvent<E>>)
    requires
        !(start.kind is Text),
    ensures
        texts_newest_first(seq![start] + body) == texts_newest_first(body),
{
    let buf = seq![start] + body;
    assert(buf.drop_first() =~= body);
    assert(text_of(start) =~= Seq::<Seq<char>>::empty());
    assert(texts_newest_first(body) + text_of(start) =~= texts_newest_first(body));
}

/// An inline link read outside any element, with only content between its
/// start and its end, becomes one link component whose children are the
/// texts of that content, the most recent first; after it the transform
/// stands outside any element, with nothing held back.
pub proof fn lemma_inline_link_becomes_component<E>(
    prefix: Seq<MdEvent<E>>,
    start: MdEvent<E>,
    body: Seq<MdEvent<E>>,
    end: MdEvent<E>,
)
    requires
        !scan(prefix).in_element,
        start.kind matches MdEventKind::Start(MdTag::Link { kind: LinkKind::Inline, .. }),
        forall|i: int| 0 <= i < body.len() ==> is_content(#[trigger] body[i]),
        end.kind matches MdEventKind::End(MdTag::Link { kind: LinkKind::Inline, .. }),
    ensures
        ({
            let after = scan(prefix.push(start) + body + seq![end]);
            &&& after.buffer == Seq::<MdEvent<E>>::empty()
            &&& !after.in_element
            &&& end.kind matches MdEventKind::End(MdTag::Link { kind: LinkKind::Inline, href, title })
                && after.out == scan(prefix).out.push(
                Emitted::Link { href: href@, title: title@, children: texts_newest_first(body) },
            )
        }),
{
    let s0 = scan(prefix);
    lemma_nothing_held_outside_elements(prefix);
    let opened = prefix.push(start);
    assert(opened.drop_last() =~= prefix);
    let s1 = scan(opened);
    lemma_content_is_held_back(s1, opened, body);
    let all = opened + body + seq![end];
    assert(all.drop_last() =~= opened + body);
    lemma_texts_after_start(start, body);
    assert(s1.buffer =~= seq![start]);
    let s2 = scan(opened + body);
    assert(s2.buffer =~= seq![start] + body);
    assert(scan(all) == step(s2, end));
    if let MdEventKind::End(MdTag::Link { kind: LinkKind::Inline, href, title }) = end.kind {
        let link = Emitted::Link { href: href@, title: title@, children: texts_newest_first(body) };
        assert(s2.out + seq![link] =~= s0.out.push(link));
    }
}

/// A fenced code block read outside any element, with only content between
/// its start and its end, becomes one code block component whose code is the
/// texts of that content, the most recent first, joined, trimmed and without
/// trailing fences; after it the transform stands outside any element, with
/// nothing held back.
pub proof fn lemma_fenced_code_block_becomes_component<E>(
    prefix: Seq<MdEvent<E>>,
    start: MdEvent<E>,
    body: Seq<MdEvent<E>>,
    end: MdEvent<E>,
)
    requires
        !scan(prefix).in_element,
        start.kind matches MdEventKind::Start(MdTag::CodeBlock(CodeBlockKind::Fenced(_))),
        forall|i: int| 0 <= i < body.len() ==> is_content(#[trigger] body[i]),
        end.kind matches MdEventKind::End(MdTag::CodeBlock(CodeBlockKind::Fenced(_))),
    ensures
        ({
            let after = scan(prefix.push(start) + body + seq![end]);
            &&& after.buffer == Seq::<MdEvent<E>>::empty()
            &&& !after.in_element
            &&& end.kind matches MdEventKind::End(MdTag::CodeBlock(CodeBlockKind::Fenced(language)))
                && after.out == scan(prefix).out.push(
                Emitted::CodeBlock { language: language@, code: code_of(body) },
            )
        }),
{
    let s0 = scan(prefix);
    lemma_nothing_held_outside_elements(prefix);
    let opened = prefix.push(start);
    assert(opened.drop_last() =~= prefix);
    let s1 = scan(opened);
    lemma_content_is_held_back(s1, opened, body);
    let all = opened + body + seq![end];
    assert(all.drop_last() =~= opened + body);
    lemma_texts_after_start(start, body);
    assert(s1.buffer =~= seq![start]);
    let s2 = scan(opened + body);
    assert(s2.buffer =~= seq![start] + body);
    assert(scan(all) == step(s2, end));
    if let MdEventKind::End(MdTag::CodeBlock(CodeBlockKind::Fenced(language))) = end.kind {
        let block = Emitted::CodeBlock { language: language@, code: code_of(body) };
        assert(code_of(s2.buffer) == code_of(body));
        assert(s2.out + seq![block] =~= s0.out.push(block));
    }
}

/// The code that a fenced code block renders never ends with a fence.
pub proof fn lemma_code_has_no_trailing_fence<E>(buf: Seq<MdEvent<E>>)
    ensures
        !fence().is_suffix_of(code_of(buf)),
{
    lemma_stripped_has_no_suffix(trim(texts_newest_first(buf).flatten_alt()), fence());
}

proof fn lemma_stripped_has_no_suffix(s: Seq<char>, pat: Seq<char>)
    requires
        pat.len() > 0,
    ensures
        !pat.is_suffix_of(strip_suffixes(s, pat)),
    decreases s.len(),
{
    if pat.len() <= s.len() && s.subrange(s.len() - pat.len(), s.len() as int) == pat {
        lemma_stripped_has_no_suffix(s.subrange(0, s.len() - pat.len()), pat);
    } else {
        if pat.is_suffix_of(s) {
            assert(s.subrange(s.len() - pat.len(), s.len() as int) =~= pat);
        }
    }
}

/// `e` is a text event.
pub open spec fn is_text<E>(e: MdEvent<E>) -> bool {
    e.kind is Text
}

/// The characters of a text event; nothing for any other event.
pub open spec fn text_chars<E>(e: MdEvent<E>) -> Seq<char> {
    match e.kind {
        MdEventKind::Text(t) => t@,
        _ => seq![],
    }
}

/// The texts of the text events of `buf`, in the order they came.
pub open spec fn texts_in_order<E>(buf: Seq<MdEvent<E>>) -> Seq<Seq<char>> {
    buf.filter(|e: MdEvent<E>| is_text(e)).map_values(|e: MdEvent<E>| text_chars(e))
}

/// `n` backticks.
pub open spec fn backticks(n: nat) -> Seq<char> {
    Seq::new(n, |i: int| '`')
}

proof fn lemma_texts_newest_first_push<E>(buf: Seq<MdEvent<E>>, x: MdEvent<E>)
    ensures
        texts_newest_first(buf.push(x)) == text_of(x) + texts_newest_first(buf),
    decreases buf.len(),
{
    if buf.len() == 0 {
        assert(buf.push(x).drop_first() =~= buf);
        assert(Seq::<Seq<char>>::empty() + text_of(x) =~= text_of(x) + Seq::<Seq<char>>::empty());
    } else {
        assert(buf.push(x).drop_first() =~= buf.drop_first().push(x));
        assert(buf.push(x)[0] == buf[0]);
        lemma_texts_newest_first_push(buf.drop_first(), x);
        assert(text_of(x) + texts_newest_first(buf.drop_first()) + text_of(buf[0]) =~= text_of(x) + (
        texts_newest_first(buf.drop_first()) + text_of(buf[0])));
    }
}

/// The texts held back for an element, most recent first, are exactly the
/// texts of all its text events, in reverse order: none is left out, none is
/// changed, none is added.
pub proof fn lemma_texts_newest_first_are_all_texts_reversed<E>(buf: Seq<MdEvent<E>>)
    ensures
        texts_newest_first(buf) == texts_in_order(buf).reverse(),
    decreases buf.len(),
{
    let p = |e: MdEvent<E>| is_text(e);
    let f = |e: MdEvent<E>| text_chars(e);
    reveal(Seq::filter);
    if buf.len() == 0 {
        assert(texts_in_order(buf) =~= Seq::<Seq<char>>::empty());
        assert(texts_in_order(buf).reverse() =~= Seq::<Seq<char>>::empty());
    } else {
        let d = buf.drop_last();
        let l = buf.last();
        lemma_texts_newest_first_are_all_texts_reversed(d);
        assert(buf =~= d.push(l));
        lemma_texts_newest_first_push(d, l);
        let fd = d.filter(p);
        assert(buf.filter(p) == if p(l) { fd.push(l) } else { fd });
        if is_text(l) {
            assert(buf.filter(p).map_values(f) =~= fd.map_values(f).push(text_chars(l)));
            assert(text_of(l) =~= seq![text_chars(l)]);
            assert(seq![text_chars(l)] + fd.map_values(f).reverse() =~= fd.map_values(f).push(
                text_chars(l),
            ).reverse());
        } else {
            assert(text_of(l) =~= Seq::<Seq<char>>::empty());
            assert(Seq::<Seq<char>>::empty() + fd.map_values(f).reverse() =~= fd.map_values(
                f,
            ).reverse());
        }
    }
}

proof fn lemma_strip_removes_whole_fences(s: Seq<char>)
    ensures
        exists|k: nat| s == strip_suffixes(s, fence()) + #[trigger] backticks(3 * k),
    decreases s.len(),
{
    let pat = fence();
    if 0 < pat.len() <= s.len() && s.subrange(s.len() - pat.len(), s.len() as int) == pat {
        let rest = s.subrange(0, s.len() - pat.len());
        lemma_strip_removes_whole_fences(rest);
        let k = choose|k: nat| rest == strip_suffixes(rest, fence()) + #[trigger] backticks(3 * k);
        assert(s =~= rest + pat);
        assert(backticks(3 * k) + pat =~= backticks(3 * (k + 1)));
        assert(s =~= strip_suffixes(s, fence()) + backticks(3 * (k + 1)));
    } else {
        assert(s =~= s + backticks(3 * 0));
    }
}

/// The code of a fenced code block is its text, all text events joined most
/// recent first and trimmed, with only whole trailing copies of three
/// backticks cut off, and no three backticks left at its end: a single or
/// double backtick at the end is kept.
pub proof fn lemma_code_cuts_only_whole_fences<E>(buf: Seq<MdEvent<E>>)
    ensures
        exists|k: nat|
            trim(texts_in_order(buf).reverse().flatten_alt()) == code_of(buf) + #[trigger] backticks(
                3 * k,
            ),
        !backticks(3).is_suffix_of(code_of(buf)),
{
    lemma_texts_newest_first_are_all_texts_reversed(buf);
    lemma_strip_removes_whole_fences(trim(texts_newest_first(buf).flatten_alt()));
    lemma_code_has_no_trailing_fence(buf);
    assert(fence() =~= backticks(3));
}

/// After any end event the transform stands outside any element, with
/// nothing held back, so a text or other event that follows is emitted at
/// once as itself.
pub proof fn lemma_content_after_end_is_emitted<E>(
    events: Seq<MdEvent<E>>,
    end: MdEvent<E>,
    next: MdEvent<E>,
)
    requires
        end.kind is End,
        is_content(next),
    ensures
        !scan(events.push(end)).in_element,
        scan(events.push(end)).buffer == Seq::<MdEvent<E>>::empty(),
        scan(events.push(end).push(next)).out == scan(events.push(end)).out.push(
            Emitted::Event(next.raw),
        ),
{
    assert(events.push(end).drop_last() =~= events);
    assert(events.push(end).push(next).drop_last() =~= events.push(end));
}

/// An inline link read outside any element, with only content between its
/// start and its end, gives one link component whose children are the texts
/// of all its text events, in reverse order: one child per text event.
pub proof fn lemma_link_children_are_all_its_texts<E>(
    prefix: Seq<MdEvent<E>>,
    start: MdEvent<E>,
    body: Seq<MdEvent<E>>,
    end: MdEvent<E>,
)
    requires
        !scan(prefix).in_element,
        start.kind matches MdEventKind::Start(MdTag::Link { kind: LinkKind::Inline, .. }),
        forall|i: int| 0 <= i < body.len() ==> is_content(#[trigger] body[i]),
        end.kind matches MdEventKind::End(MdTag::Link { kind: LinkKind::Inline, .. }),
    ensures
        end.kind matches MdEventKind::End(MdTag::Link { href, title, .. }) && scan(
            prefix.push(start) + body + seq![end],
        ).out == scan(prefix).out.push(
            Emitted::Link { href: href@, title: title@, children: texts_in_order(body).reverse() },
        ),
        texts_in_order(body).reverse().len() == body.filter(|e: MdEvent<E>| is_text(e)).len(),
{
    lemma_inline_link_becomes_component(prefix, start, body, end);
    lemma_texts_newest_first_are_all_texts_reversed(body);
}

/// A fenced code block read outside any element, with only content between
/// its start and its end, gives one code block component whose code is the
/// texts of all its text events, joined most recent first and trimmed, with
/// only whole trailing copies of three backticks cut off.
pub proof fn lemma_code_block_code_is_all_its_texts<E>(
    prefix: Seq<MdEvent<E>>,
    start: MdEvent<E>,
    body: Seq<MdEvent<E>>,
    end: MdEvent<E>,
)
    requires
        !scan(prefix).in_element,
        start.kind matches MdEventKind::Start(MdTag::CodeBlock(CodeBlockKind::Fenced(_))),
        forall|i: int| 0 <= i < body.len() ==> is_content(#[trigger] body[i]),
        end.kind matches MdEventKind::End(MdTag::CodeBlock(CodeBlockKind::Fenced(_))),
    ensures
        end.kind matches MdEventKind::End(MdTag::CodeBlock(CodeBlockKind::Fenced(language)))
            && exists|code: Seq<char>|
            {
                &&& scan(prefix.push(start) + body + seq![end]).out == scan(prefix).out.push(
                    Emitted::CodeBlock { language: language@, code },
                )
                &&& exists|k: nat|
                    trim(texts_in_order(body).reverse().flatten_alt()) == code
                        + #[trigger] backticks(3 * k)
                &&& !backticks(3).is_suffix_of(code)
            },
{
    lemma_fenced_code_block_becomes_component(prefix, start, body, end);
    lemma_code_cuts_only_whole_fences(body);
    let code = code_of(body);
    assert(scan(prefix.push(start) + body + seq![end]).out == scan(prefix).out.push(
        Emitted::CodeBlock { language: end.kind->End_0->CodeBlock_0->Fenced_0@, code },
    ));
}

} // verus!
