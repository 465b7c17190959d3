//! A subtitle summary task as a state machine: the caller sends the requests
//! it names and hands back the answers; the task decides the prompts, the
//! progress reports and the final result.
use vstd::prelude::*;
use vstd::string::*;
use crate::ai::{
    extraction_prompt, merge_prompt, notes_prompt, subtitle_chunks, Client, SUBTITLE_CHUNK_MAX_CHARS,
};
use crate::model::{LLMChatResponse, SubtitleSummaryProgressPayload, SubtitleSummaryResult};
use crate::text::{blank, dec, decimal, is_blank, join, join_strings, trim, trim_string, views};

verus! {

/// How many chunk requests may be in flight at once.
pub const SUBTITLE_CHUNK_CONCURRENCY: usize = 2;

pub const STAGE_PREPARING: &'static str = "preparing";
pub const STAGE_CHUNKING: &'static str = "chunking";
pub const STAGE_SUMMARIZING: &'static str = "summarizing";
pub const STAGE_MERGING: &'static str = "merging";
pub const STAGE_DONE: &'static str = "done";

pub const MSG_READY: &'static str = "字幕已准备完成，正在发送给 AI…";
pub const MSG_FETCHING: &'static str = "正在获取并整理字幕…";
pub const MSG_PLANNING: &'static str = "正在分析字幕长度并规划发送方式…";
pub const MSG_SENDING_WHOLE: &'static str = "正在发送完整字幕给 AI…";
pub const MSG_DONE: &'static str = "课堂笔记已生成，正在整理结果…";
pub const MSG_SENDING_CHUNKS_HEAD: &'static str = "字幕较长，正在分 ";
pub const MSG_SENDING_CHUNKS_TAIL: &'static str = " 段发送给 AI…";
pub const MSG_CHUNK_DONE_HEAD: &'static str = "已完成 ";
pub const MSG_CHUNK_DONE_TAIL: &'static str = " 段字幕总结…";
pub const MSG_MERGING: &'static str = "分段总结完成，正在合并最终课堂笔记…";
pub const CHUNK_REASONING_HEAD: &'static str = "## 分段 ";
pub const CHUNK_REASONING_TAIL: &'static str = " 思考内容\n\n";
pub const MERGED_REASONING_HEAD: &'static str = "## 最终合并思考内容\n\n";
pub const REASONING_SEPARATOR: &'static str = "\n\n---\n\n";

/// `p` reports `stage` with `processed` of `total` and `message` for `task`.
pub open spec fn reports(
    p: SubtitleSummaryProgressPayload,
    task: Seq<char>,
    stage: Seq<char>,
    processed: nat,
    total: nat,
    message: Seq<char>,
) -> bool {
    &&& p.uuid@ == task
    &&& p.stage@ == stage
    &&& p.processed == processed
    &&& p.total == total
    &&& p.message@ == message
}

/// A progress report.
pub fn progress_payload(task_id: &str, stage: &str, processed: u64, total: u64, message: String) -> (res:
    SubtitleSummaryProgressPayload)
    ensures
        reports(res, task_id@, stage@, processed as nat, total as nat, message@),
{
    SubtitleSummaryProgressPayload {
        uuid: task_id.to_string(),
        stage: stage.to_string(),
        processed,
        total,
        message,
    }
}

/// Hands a progress report to the task's progress handler.
pub fn emit_subtitle_summary_progress<F: Fn(SubtitleSummaryProgressPayload)>(
    progress_handler: &F,
    task_id: &str,
    stage: &str,
    processed: u64,
    total: u64,
    message: String,
)
    requires
        forall|p: SubtitleSummaryProgressPayload| call_requires(*progress_handler, (p,)),
    ensures
        exists|p: SubtitleSummaryProgressPayload|
            reports(p, task_id@, stage@, processed as nat, total as nat, message@) && call_ensures(
                *progress_handler,
                (p,),
                (),
            ),
{
    let payload = progress_payload(task_id, stage, processed, total, message);
    progress_handler(payload);
}

/// The subtitle text handed in by the caller, unless it is missing or blank.
pub fn provided_subtitle(subtitle_content: Option<String>) -> (res: Option<String>)
    ensures
        match subtitle_content {
            Some(s) => if blank(s@) {
                res is None
            } else {
                res == Some(s)
            },
            None => res is None,
        },
{
    match subtitle_content {
        Some(s) => if is_blank(s.as_str()) {
            None
        } else {
            Some(s)
        },
        None => None,
    }
}

/// The report sent while the transcript is being prepared: `ready` when it
/// was handed in or has been fetched, otherwise before it is fetched.
pub fn preparing_progress(task_id: &str, ready: bool) -> (res: SubtitleSummaryProgressPayload)
    ensures
        reports(res, task_id@, STAGE_PREPARING@, 0, 0, if ready { MSG_READY@ } else { MSG_FETCHING@ }),
{
    let message = if ready { MSG_READY.to_string() } else { MSG_FETCHING.to_string() };
    progress_payload(task_id, STAGE_PREPARING, 0, 0, message)
}

/// The report sent before the transcript is split.
pub fn chunking_progress(task_id: &str) -> (res: SubtitleSummaryProgressPayload)
    ensures
        reports(res, task_id@, STAGE_CHUNKING@, 0, 0, MSG_PLANNING@),
{
    progress_payload(task_id, STAGE_CHUNKING, 0, 0, MSG_PLANNING.to_string())
}

/// The reasoning section of chunk `index` (counted from zero).
pub open spec fn chunk_reasoning(index: nat, reasoning: Seq<char>) -> Seq<char> {
    CHUNK_REASONING_HEAD@ + dec(index + 1) + CHUNK_REASONING_TAIL@ + trim(reasoning)
}

/// The non-blank pieces of `v`, in order.
pub open spec fn non_blank(v: Seq<Seq<char>>) -> Seq<Seq<char>>
    decreases v.len(),
{
    if v.len() == 0 {
        seq![]
    } else if blank(v.last()) {
        non_blank(v.drop_last())
    } else {
        non_blank(v.drop_last()).push(v.last())
    }
}

/// The reasoning of a merged summary: the non-blank chunk reasoning
/// sections, then that of the merge when it is not blank.
pub open spec fn merged_reasoning(partial: Seq<Seq<char>>, merged: Seq<char>) -> Seq<char> {
    let sections = if blank(merged) {
        non_blank(partial)
    } else {
        non_blank(partial).push(MERGED_REASONING_HEAD@ + trim(merged))
    };
    join(sections, REASONING_SEPARATOR@)
}

/// A summary task over one compressed transcript.
pub struct SubtitleSummaryJob {
    task_id: String,
    subtitle: String,
    chunks: Vec<String>,
    partial_notes: Vec<String>,
    partial_reasonings: Vec<String>,
    completed: u64,
    reported: Ghost<nat>,
    history: Ghost<Seq<(nat, nat)>>,
    closed: bool,
}

impl SubtitleSummaryJob {
    /// The task's identifier.
    pub closed spec fn task(&self) -> Seq<char> {
        self.task_id@
    }

    /// The compressed transcript.
    pub closed spec fn transcript(&self) -> Seq<char> {
        self.subtitle@
    }

    /// The chunks that the transcript was split into.
    pub closed spec fn chunk_views(&self) -> Seq<Seq<char>> {
        views(self.chunks@)
    }

    /// The notes received for each chunk so far (empty where none yet).
    pub closed spec fn notes(&self) -> Seq<Seq<char>> {
        views(self.partial_notes@)
    }

    /// The reasoning section kept for each chunk so far (empty where none).
    pub closed spec fn reasonings(&self) -> Seq<Seq<char>> {
        views(self.partial_reasonings@)
    }

    /// How many chunk answers have been recorded.
    pub closed spec fn done(&self) -> nat {
        self.completed as nat
    }

    /// The `processed` count of the task's last progress report (zero
    /// before the first).
    pub closed spec fn last_report(&self) -> nat {
        self.reported@
    }

    /// The `(processed, total)` of each progress report of the task so far,
    /// in order.
    pub closed spec fn progress_history(&self) -> Seq<(nat, nat)> {
        self.history@
    }

    /// Whether the task has sent its final report, the one whose `processed`
    /// equals its `total`; it reports nothing after that.
    pub open spec fn finished(&self) -> bool {
        &&& self.progress_history().len() > 0
        &&& self.progress_history().last().0 == self.progress_history().last().1
    }

    /// All but the progress position is as in `other`.
    pub open spec fn same_state(&self, other: &Self) -> bool {
        &&& self.task() == other.task()
        &&& self.transcript() == other.transcript()
        &&& self.chunk_views() == other.chunk_views()
        &&& self.notes() == other.notes()
        &&& self.reasonings() == other.reasonings()
        &&& self.done() == other.done()
    }

    /// The task's invariant.
    pub closed spec fn wf(&self) -> bool {
        &&& views(self.chunks@) == subtitle_chunks(self.subtitle@, SUBTITLE_CHUNK_MAX_CHARS as nat)
        &&& self.partial_notes@.len() == self.chunks@.len()
        &&& self.partial_reasonings@.len() == self.chunks@.len()
        &&& self.completed <= self.chunks@.len()
        &&& self.chunks@.len() <= (usize::MAX as nat + 1) / 2
        &&& self.reported@ <= self.completed + 1
        &&& self.history@.len() == 0 ==> self.reported@ == 0
        &&& self.history@.len() > 0 ==> self.history@.last().0 == self.reported@
        &&& forall|i: int, j: int|
            0 <= i < j < self.history@.len() ==> (#[trigger] self.history@[i]).0 <= (
            #[trigger] self.history@[j]).0
        &&& forall|i: int| 0 <= i < self.history@.len() ==> (#[trigger] self.history@[i]).0 <= self.history@[i].1
        &&& forall|i: int| 0 <= i < self.history@.len() - 1 ==> (#[trigger] self.history@[i]).0 < self.history@[i].1
        &&& self.closed == (self.history@.len() > 0 && self.history@.last().0 == self.history@.last().1)
    }

    /// Over a whole task, progress never goes back and never passes its
    /// total: the `processed` counts of the reports made so far never
    /// decrease, and each is at most its report's `total`. Only the last
    /// report can be complete (`processed == total`): once the task has said
    /// it is done, it reports nothing more. (The reports sent before the task
    /// is planned, while the transcript is prepared and split, all have
    /// `processed` zero.)
    pub proof fn law_progress_never_goes_back(&self)
        requires
            self.wf(),
        ensures
            forall|i: int, j: int|
                0 <= i < j < self.progress_history().len() ==> (#[trigger] self.progress_history()[i]).0
                    <= (#[trigger] self.progress_history()[j]).0,
            forall|i: int|
                0 <= i < self.progress_history().len() ==> (#[trigger] self.progress_history()[i]).0
                    <= self.progress_history()[i].1,
            self.progress_history().len() > 0 ==> self.progress_history().last().0 == self.last_report(),
            forall|i: int|
                0 <= i < self.progress_history().len() - 1 ==> (#[trigger] self.progress_history()[i]).0
                    < self.progress_history()[i].1,
    {
    }

    /// A task holds one note and one reasoning section per chunk, at most
    /// one answer per chunk, and has reported no further than one step past
    /// its recorded answers.
    pub proof fn lemma_shape(&self)
        requires
            self.wf(),
        ensures
            self.notes().len() == self.chunk_views().len(),
            self.reasonings().len() == self.chunk_views().len(),
            self.done() <= self.chunk_views().len(),
            self.last_report() <= self.done() + 1,
    {
    }

    /// Plans the task: splits the transcript into chunks.
    pub fn new(client: &Client, task_id: &str, subtitle: String) -> (res: SubtitleSummaryJob)
        ensures
            res.wf(),
            res.task() == task_id@,
            res.transcript() == subtitle@,
            res.chunk_views() == subtitle_chunks(subtitle@, SUBTITLE_CHUNK_MAX_CHARS as nat),
            res.done() == 0,
            res.last_report() == 0,
            res.progress_history().len() == 0,
            !res.finished(),
            res.notes().len() == res.chunk_views().len(),
            res.reasonings().len() == res.chunk_views().len(),
            forall|i: int| 0 <= i < res.chunk_views().len() ==> (#[trigger] res.notes()[i]).len() == 0,
            forall|i: int| 0 <= i < res.chunk_views().len() ==> (#[trigger] res.reasonings()[i]).len() == 0,
    {
        let chunks = client.split_subtitle_chunks(subtitle.as_str(), SUBTITLE_CHUNK_MAX_CHARS);
        let mut partial_notes: Vec<String> = Vec::new();
        let mut partial_reasonings: Vec<String> = Vec::new();
        let mut i: usize = 0;
        while i < chunks.len()
            invariant
                i <= chunks@.len(),
                partial_notes@.len() == i,
                partial_reasonings@.len() == i,
                forall|j: int| 0 <= j < i ==> (#[trigger] partial_notes@[j])@.len() == 0,
                forall|j: int| 0 <= j < i ==> (#[trigger] partial_reasonings@[j])@.len() == 0,
            decreases chunks@.len() - i,
        {
            partial_notes.push(String::new());
            partial_reasonings.push(String::new());
            i += 1;
        }
        SubtitleSummaryJob {
            task_id: task_id.to_string(),
            subtitle,
            chunks,
            partial_notes,
            partial_reasonings,
            completed: 0,
            reported: Ghost(0),
            history: Ghost(Seq::empty()),
            closed: false,
        }
    }

    /// Whether the task has sent its final report.
    pub fn is_finished(&self) -> (res: bool)
        requires
            self.wf(),
        ensures
            res == self.finished(),
    {
        self.closed
    }

    /// How many chunks the transcript was split into.
    pub fn chunk_count(&self) -> (n: usize)
        requires
            self.wf(),
        ensures
            n == self.chunk_views().len(),
    {
        self.chunks.len()
    }

    /// How many chunk answers have been recorded.
    pub fn completed_chunks(&self) -> (n: u64)
        ensures
            n == self.done(),
    {
        self.completed
    }

    /// Whether the transcript goes out whole, in a single request.
    pub fn is_single(&self) -> (res: bool)
        requires
            self.wf(),
        ensures
            res == (self.chunk_views().len() <= 1),
    {
        self.chunks.len() <= 1
    }

    /// How many chunk requests may run at once: the chunk count, at most
    /// `SUBTITLE_CHUNK_CONCURRENCY`, at least one.
    pub fn concurrency(&self) -> (n: usize)
        requires
            self.wf(),
        ensures
            n == if self.chunk_views().len() < SUBTITLE_CHUNK_CONCURRENCY {
                if self.chunk_views().len() == 0 { 1 } else { self.chunk_views().len() }
            } else {
                SUBTITLE_CHUNK_CONCURRENCY as nat
            },
    {
        let n = if self.chunks.len() < SUBTITLE_CHUNK_CONCURRENCY {
            self.chunks.len()
        } else {
            SUBTITLE_CHUNK_CONCURRENCY
        };
        if n < 1 { 1 } else { n }
    }

    /// The number of steps of a chunked task: one per chunk, and the merge.
    pub fn total_steps(&self) -> (n: u64)
        requires
            self.wf(),
        ensures
            n == self.chunk_views().len() + 1,
    {
        self.chunks.len() as u64 + 1
    }

    /// The request for notes on the whole transcript.
    pub fn single_prompt(&self) -> (res: String)
        ensures
            res@ == notes_prompt(self.transcript()),
    {
        let mut res = crate::ai::SUBTITLE_REQUEST_PREVIEW_PREFIX.to_string();
        res.append(self.subtitle.as_str());
        res
    }

    /// The report sent as the whole transcript goes out.
    pub fn single_start_progress(&mut self) -> (res: SubtitleSummaryProgressPayload)
        requires
            old(self).wf(),
            !old(self).finished(),
            old(self).last_report() == 0,
        ensures
            final(self).wf(),
            final(self).same_state(old(self)),
            reports(res, old(self).task(), STAGE_SUMMARIZING@, 0, 1, MSG_SENDING_WHOLE@),
            res.processed >= old(self).last_report(),
            final(self).last_report() == res.processed,
            final(self).progress_history() == old(self).progress_history().push(
                (res.processed as nat, res.total as nat),
            ),
            !final(self).finished(),
    {
        let res = progress_payload(self.task_id.as_str(), STAGE_SUMMARIZING, 0, 1, MSG_SENDING_WHOLE.to_string());
        self.reported = Ghost(0);
        self.history = Ghost(self.history@.push((0nat, 1nat)));
        res
    }

    /// The report sent once the notes on the whole transcript are back.
    pub fn single_done_progress(&mut self) -> (res: SubtitleSummaryProgressPayload)
        requires
            old(self).wf(),
            !old(self).finished(),
            old(self).last_report() <= 1,
        ensures
            final(self).wf(),
            final(self).same_state(old(self)),
            reports(res, old(self).task(), STAGE_DONE@, 1, 1, MSG_DONE@),
            res.processed >= old(self).last_report(),
            final(self).last_report() == res.processed,
            final(self).progress_history() == old(self).progress_history().push(
                (res.processed as nat, res.total as nat),
            ),
            final(self).finished(),
    {
        let res = progress_payload(self.task_id.as_str(), STAGE_DONE, 1, 1, MSG_DONE.to_string());
        self.reported = Ghost(1);
        self.history = Ghost(self.history@.push((1nat, 1nat)));
        self.closed = true;
        res
    }

    /// The result of a single-request task.
    pub fn finish_single(self, response: LLMChatResponse) -> (res: SubtitleSummaryResult)
        ensures
            res.markdown == response.content,
            res.reasoning_content == response.reasoning_content,
            res.subtitle_content@ == self.transcript(),
    {
        SubtitleSummaryResult {
            markdown: response.content,
            reasoning_content: response.reasoning_content,
            subtitle_content: self.subtitle,
        }
    }

    /// The report sent as the chunk requests go out.
    pub fn chunks_start_progress(&mut self) -> (res: SubtitleSummaryProgressPayload)
        requires
            old(self).wf(),
            !old(self).finished(),
            old(self).last_report() == 0,
        ensures
            final(self).wf(),
            final(self).same_state(old(self)),
            reports(
                res,
                old(self).task(),
                STAGE_SUMMARIZING@,
                0,
                old(self).chunk_views().len() + 1,
                MSG_SENDING_CHUNKS_HEAD@ + dec(old(self).chunk_views().len()) + MSG_SENDING_CHUNKS_TAIL@,
            ),
            res.processed >= old(self).last_report(),
            final(self).last_report() == res.processed,
            final(self).progress_history() == old(self).progress_history().push(
                (res.processed as nat, res.total as nat),
            ),
            !final(self).finished(),
    {
        let total = self.total_steps();
        let mut message = MSG_SENDING_CHUNKS_HEAD.to_string();
        message.append(decimal(self.chunks.len() as u64).as_str());
        message.append(MSG_SENDING_CHUNKS_TAIL);
        let res = progress_payload(self.task_id.as_str(), STAGE_SUMMARIZING, 0, total, message);
        self.reported = Ghost(0);
        self.history = Ghost(self.history@.push((0nat, self.chunks@.len() + 1)));
        res
    }

    /// The request for the notes of chunk `index`.
    pub fn chunk_prompt(&self, client: &Client, index: usize) -> (res: String)
        requires
            self.wf(),
            index < self.chunk_views().len(),
        ensures
            res@ == extraction_prompt(
                self.chunk_views()[index as int],
                index as nat,
                self.chunk_views().len(),
            ),
    {
        client.build_chunk_extraction_prompt(self.chunks[index].as_str(), index, self.chunks.len())
    }

    /// Records the answer for chunk `index`: its notes, and its reasoning
    /// section when the reasoning is not blank. Returns the progress report.
    pub fn record_chunk(&mut self, index: usize, response: LLMChatResponse) -> (res:
        SubtitleSummaryProgressPayload)
        requires
            old(self).wf(),
            !old(self).finished(),
            index < old(self).chunk_views().len(),
            old(self).done() < old(self).chunk_views().len(),
        ensures
            final(self).wf(),
            final(self).task() == old(self).task(),
            final(self).transcript() == old(self).transcript(),
            final(self).chunk_views() == old(self).chunk_views(),
            final(self).done() == old(self).done() + 1,
            final(self).notes().len() == final(self).chunk_views().len(),
            final(self).reasonings().len() == final(self).chunk_views().len(),
            final(self).notes() == old(self).notes().update(index as int, response.content@),
            final(self).reasonings() == if blank(response.reasoning_content@) {
                old(self).reasonings()
            } else {
                old(self).reasonings().update(
                    index as int,
                    chunk_reasoning(index as nat, response.reasoning_content@),
                )
            },
            reports(
                res,
                old(self).task(),
                STAGE_SUMMARIZING@,
                old(self).done() + 1,
                old(self).chunk_views().len() + 1,
                MSG_CHUNK_DONE_HEAD@ + dec(old(self).done() + 1) + seq!['/'] + dec(
                    old(self).chunk_views().len(),
                ) + MSG_CHUNK_DONE_TAIL@,
            ),
            res.processed >= old(self).last_report(),
            final(self).last_report() == res.processed,
            final(self).progress_history() == old(self).progress_history().push(
                (res.processed as nat, res.total as nat),
            ),
            !final(self).finished(),
    {
        let LLMChatResponse { content, reasoning_content } = response;
        let ghost content_view = content@;
        self.partial_notes.set(index, content);
        assert(views(self.partial_notes@) =~= views(old(self).partial_notes@).update(index as int, content_view));
        if !is_blank(reasoning_content.as_str()) {
            let mut section = CHUNK_REASONING_HEAD.to_string();
            section.append(decimal(index as u64 + 1).as_str());
            section.append(CHUNK_REASONING_TAIL);
            section.append(trim_string(reasoning_content.as_str()).as_str());
            let ghost section_view = section@;
            assert(section_view =~= chunk_reasoning(index as nat, reasoning_content@));
            self.partial_reasonings.set(index, section);
            assert(views(self.partial_reasonings@) =~= views(old(self).partial_reasonings@).update(
                index as int,
                section_view,
            ));
        }
        self.completed = self.completed + 1;
        self.reported = Ghost(self.completed as nat);
        self.history = Ghost(self.history@.push((self.completed as nat, self.chunks@.len() + 1)));
        let total = self.total_steps();
        let mut message = MSG_CHUNK_DONE_HEAD.to_string();
        message.append(decimal(self.completed).as_str());
        message.append("/");
        message.append(decimal(self.chunks.len() as u64).as_str());
        message.append(MSG_CHUNK_DONE_TAIL);
        proof {
            reveal_strlit("/");
        }
        let res = progress_payload(self.task_id.as_str(), STAGE_SUMMARIZING, self.completed, total, message);
        assert(res.message@ =~= MSG_CHUNK_DONE_HEAD@ + dec(old(self).done() + 1) + seq!['/'] + dec(
            old(self).chunk_views().len(),
        ) + MSG_CHUNK_DONE_TAIL@);
        res
    }

    /// The report sent as the merge request goes out.
    pub fn merging_progress(&mut self) -> (res: SubtitleSummaryProgressPayload)
        requires
            old(self).wf(),
            !old(self).finished(),
            old(self).done() == old(self).chunk_views().len(),
            old(self).last_report() <= old(self).chunk_views().len(),
        ensures
            final(self).wf(),
            final(self).same_state(old(self)),
            reports(
                res,
                old(self).task(),
                STAGE_MERGING@,
                old(self).chunk_views().len(),
                old(self).chunk_views().len() + 1,
                MSG_MERGING@,
            ),
            res.processed >= old(self).last_report(),
            final(self).last_report() == res.processed,
            final(self).progress_history() == old(self).progress_history().push(
                (res.processed as nat, res.total as nat),
            ),
            !final(self).finished(),
    {
        let total = self.total_steps();
        let res = progress_payload(self.task_id.as_str(), STAGE_MERGING, self.chunks.len() as u64, total, MSG_MERGING.to_string());
        self.reported = Ghost(self.chunks@.len());
        self.history = Ghost(self.history@.push((self.chunks@.len(), self.chunks@.len() + 1)));
        res
    }

    /// The request that merges the chunk notes.
    pub fn merge_prompt(&self, client: &Client) -> (res: String)
        requires
            self.wf(),
            self.done() == self.chunk_views().len(),
        ensures
            res@ == merge_prompt(self.notes()),
    {
        client.build_chunk_merge_prompt(&self.partial_notes)
    }

    /// The report sent once the merged notes are back.
    pub fn done_progress(&mut self) -> (res: SubtitleSummaryProgressPayload)
        requires
            old(self).wf(),
            !old(self).finished(),
            old(self).done() == old(self).chunk_views().len(),
        ensures
            final(self).wf(),
            final(self).same_state(old(self)),
            reports(
                res,
                old(self).task(),
                STAGE_DONE@,
                old(self).chunk_views().len() + 1,
                old(self).chunk_views().len() + 1,
                MSG_DONE@,
            ),
            res.processed >= old(self).last_report(),
            final(self).last_report() == res.processed,
            final(self).progress_history() == old(self).progress_history().push(
                (res.processed as nat, res.total as nat),
            ),
            final(self).finished(),
    {
        let total = self.total_steps();
        let res = progress_payload(self.task_id.as_str(), STAGE_DONE, total, total, MSG_DONE.to_string());
        self.reported = Ghost(self.chunks@.len() + 1);
        self.history = Ghost(self.history@.push((self.chunks@.len() + 1, self.chunks@.len() + 1)));
        self.closed = true;
        res
    }

    /// The result of a chunked task, from the answer to the merge request.
    pub fn finish(self, merged: LLMChatResponse) -> (res: SubtitleSummaryResult)
        requires
            self.wf(),
            self.done() == self.chunk_views().len(),
        ensures
            res.markdown == merged.content,
            res.reasoning_content@ == merged_reasoning(self.reasonings(), merged.reasoning_content@),
            res.subtitle_content@ == self.transcript(),
    {
        let mut sections: Vec<String> = Vec::new();
        let mut i: usize = 0;
        while i < self.partial_reasonings.len()
            invariant
                i <= self.partial_reasonings@.len(),
                views(sections@) == non_blank(views(self.partial_reasonings@).take(i as int)),
            decreases self.partial_reasonings@.len() - i,
        {
            let ghost prefix = views(self.partial_reasonings@).take(i + 1);
            assert(prefix.drop_last() =~= views(self.partial_reasonings@).take(i as int));
            if !is_blank(self.partial_reasonings[i].as_str()) {
                sections.push(self.partial_reasonings[i].clone());
                assert(views(sections@) =~= non_blank(prefix));
            }
            i += 1;
        }
        assert(views(self.partial_reasonings@).take(self.partial_reasonings@.len() as int) =~= views(
            self.partial_reasonings@,
        ));
        if !is_blank(merged.reasoning_content.as_str()) {
            let mut last = MERGED_REASONING_HEAD.to_string();
            last.append(trim_string(merged.reasoning_content.as_str()).as_str());
            sections.push(last);
            assert(views(sections@) =~= non_blank(self.reasonings()).push(
                MERGED_REASONING_HEAD@ + trim(merged.reasoning_content@),
            ));
        }
        let reasoning_content = join_strings(&sections, REASONING_SEPARATOR);
        SubtitleSummaryResult {
            markdown: merged.content,
            reasoning_content,
            subtitle_content: self.subtitle,
        }
    }
}


/// Chunk answers may arrive in any order: recording two answers for
/// different chunks in either order leads to the same merge request.
pub proof fn law_chunk_answers_commute(
    notes: Seq<Seq<char>>,
    i: int,
    a: Seq<char>,
    j: int,
    b: Seq<char>,
)
    requires
        0 <= i < notes.len(),
        0 <= j < notes.len(),
        i != j,
    ensures
        merge_prompt(notes.update(i, a).update(j, b)) == merge_prompt(notes.update(j, b).update(i, a)),
{
    assert(notes.update(i, a).update(j, b) =~= notes.update(j, b).update(i, a));
}


/// The notes and reasoning sections after recording, in the given order of
/// chunk positions, the answers `(content, reasoning)` of those chunks, as
/// `SubtitleSummaryJob::record_chunk` records each one.
pub open spec fn recorded(
    notes: Seq<Seq<char>>,
    reasonings: Seq<Seq<char>>,
    order: Seq<int>,
    answers: Seq<(Seq<char>, Seq<char>)>,
) -> (Seq<Seq<char>>, Seq<Seq<char>>)
    decreases order.len(),
{
    if order.len() == 0 {
        (notes, reasonings)
    } else {
        let (n, r) = recorded(notes, reasonings, order.drop_last(), answers);
        let i = order.last();
        let (content, why) = answers[i];
        (
            n.update(i, content),
            if blank(why) {
                r
            } else {
                r.update(i, chunk_reasoning(i as nat, why))
            },
        )
    }
}

proof fn lemma_recorded(
    notes: Seq<Seq<char>>,
    reasonings: Seq<Seq<char>>,
    order: Seq<int>,
    answers: Seq<(Seq<char>, Seq<char>)>,
)
    requires
        notes.len() == answers.len(),
        reasonings.len() == answers.len(),
        forall|k: int| 0 <= k < order.len() ==> 0 <= #[trigger] order[k] < answers.len(),
    ensures
        recorded(notes, reasonings, order, answers).0.len() == answers.len(),
        recorded(notes, reasonings, order, answers).1.len() == answers.len(),
        forall|i: int|
            0 <= i < answers.len() && order.contains(i) ==> #[trigger] recorded(notes, reasonings, order, answers).0[i]
                == answers[i].0,
        forall|i: int|
            0 <= i < answers.len() && order.contains(i) && !blank(answers[i].1) ==> #[trigger] recorded(
                notes,
                reasonings,
                order,
                answers,
            ).1[i] == chunk_reasoning(i as nat, answers[i].1),
        forall|i: int|
            0 <= i < answers.len() && !(order.contains(i) && !blank(answers[i].1)) ==> #[trigger] recorded(
                notes,
                reasonings,
                order,
                answers,
            ).1[i] == reasonings[i],
    decreases order.len(),
{
    if order.len() > 0 {
        let rest = order.drop_last();
        lemma_recorded(notes, reasonings, rest, answers);
        let last = order.last();
        assert(order[order.len() - 1] == last);
        assert forall|i: int| 0 <= i < answers.len() implies (order.contains(i) <==> (rest.contains(i) || i == last)) by {
            if order.contains(i) {
                let k = choose|k: int| 0 <= k < order.len() && order[k] == i;
                if k < order.len() - 1 {
                    assert(rest[k] == i);
                }
            }
            if rest.contains(i) {
                let k = choose|k: int| 0 <= k < rest.len() && rest[k] == i;
                assert(order[k] == i);
            }
        }
    }
}

/// Once every chunk has an answer, recorded in any order (repeats allowed),
/// the notes are the answers' contents in chunk order, and the reasoning
/// sections are the sections of the non-blank reasonings in chunk order: so
/// the merge request and the merged reasoning do not depend on the order in
/// which the answers came.
pub proof fn law_answers_land_in_chunk_order(
    notes: Seq<Seq<char>>,
    reasonings: Seq<Seq<char>>,
    order: Seq<int>,
    answers: Seq<(Seq<char>, Seq<char>)>,
)
    requires
        notes.len() == answers.len(),
        reasonings.len() == answers.len(),
        forall|i: int| 0 <= i < reasonings.len() ==> (#[trigger] reasonings[i]).len() == 0,
        forall|k: int| 0 <= k < order.len() ==> 0 <= #[trigger] order[k] < answers.len(),
        forall|i: int| 0 <= i < answers.len() ==> order.contains(i),
    ensures
        recorded(notes, reasonings, order, answers).0 == Seq::new(
            answers.len(),
            |i: int| answers[i].0,
        ),
        recorded(notes, reasonings, order, answers).1 == Seq::new(
            answers.len(),
            |i: int|
                if blank(answers[i].1) {
                    Seq::<char>::empty()
                } else {
                    chunk_reasoning(i as nat, answers[i].1)
                },
        ),
        merge_prompt(recorded(notes, reasonings, order, answers).0) == merge_prompt(
            Seq::new(answers.len(), |i: int| answers[i].0),
        ),
{
    lemma_recorded(notes, reasonings, order, answers);
    let r = recorded(notes, reasonings, order, answers);
    assert(r.0 =~= Seq::new(answers.len(), |i: int| answers[i].0));
    assert forall|i: int| 0 <= i < answers.len() implies r.1[i] == (if blank(answers[i].1) {
        Seq::<char>::empty()
    } else {
        chunk_reasoning(i as nat, answers[i].1)
    }) by {
        if blank(answers[i].1) {
            assert(r.1[i] == reasonings[i]);
            assert(reasonings[i] =~= Seq::<char>::empty());
        }
    }
    assert(r.1 =~= Seq::new(
        answers.len(),
        |i: int|
            if blank(answers[i].1) {
                Seq::<char>::empty()
            } else {
                chunk_reasoning(i as nat, answers[i].1)
            },
    ));
}

proof fn lemma_non_blank_is_filter(v: Seq<Seq<char>>)
    ensures
        non_blank(v) == v.filter(|s: Seq<char>| !blank(s)),
    decreases v.len(),
{
    reveal(Seq::filter);
    let pred = |s: Seq<char>| !blank(s);
    if v.len() > 0 {
        lemma_non_blank_is_filter(v.drop_last());
        assert(v.filter(pred) == if pred(v.last()) {
            v.drop_last().filter(pred).push(v.last())
        } else {
            v.drop_last().filter(pred)
        });
    } else {
        assert(v.filter(pred) == v);
    }
}

/// The reasoning of a merged summary keeps every chunk's non-blank
/// reasoning section, none dropped and in chunk order, followed by the
/// merge's own section when its reasoning is not blank, all joined by the
/// separator.
pub proof fn law_merged_reasoning_keeps_every_section(partial: Seq<Seq<char>>, merged: Seq<char>)
    ensures
        merged_reasoning(partial, merged) == join(
            partial.filter(|s: Seq<char>| !blank(s)) + if blank(merged) {
                Seq::<Seq<char>>::empty()
            } else {
                seq![MERGED_REASONING_HEAD@ + trim(merged)]
            },
            REASONING_SEPARATOR@,
        ),
{
    lemma_non_blank_is_filter(partial);
    let kept = partial.filter(|s: Seq<char>| !blank(s));
    if blank(merged) {
        assert(kept + Seq::<Seq<char>>::empty() =~= kept);
    } else {
        assert(kept + seq![MERGED_REASONING_HEAD@ + trim(merged)] =~= kept.push(
            MERGED_REASONING_HEAD@ + trim(merged),
        ));
    }
}

} // verus!
