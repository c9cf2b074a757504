//! How the outcome of a turn reaches its thread: which messages are sent,
//! edited and deleted, and in what order.

use vstd::prelude::*;

use crate::text::copy_opt;
use crate::turn::final_chunks;

verus! {

broadcast use vstd::seq_lib::group_seq_properties;

/// The most files that one message carries.
pub const MAX_FILES_PER_MESSAGE: usize = 10;

/// Something to do in the thread.
#[derive(Debug, PartialEq, Eq)]
pub enum DeliveryStep {
    /// Send a message as a reply to another.
    SendReply { content: String, reply_to: String },
    /// Send a message.
    Send { content: String },
    /// Edit the streaming post.
    EditPost { content: String },
    /// Delete the streaming post.
    DeletePost,
}

pub enum DeliveryView {
    SendReply { content: Seq<char>, reply_to: Seq<char> },
    Send { content: Seq<char> },
    EditPost { content: Seq<char> },
    DeletePost,
}

impl View for DeliveryStep {
    type V = DeliveryView;

    open spec fn view(&self) -> DeliveryView {
        match self {
            DeliveryStep::SendReply { content, reply_to } => DeliveryView::SendReply {
                content: content@,
                reply_to: reply_to@,
            },
            DeliveryStep::Send { content } => DeliveryView::Send { content: content@ },
            DeliveryStep::EditPost { content } => DeliveryView::EditPost { content: content@ },
            DeliveryStep::DeletePost => DeliveryView::DeletePost,
        }
    }
}

pub open spec fn delivery_views(steps: Seq<DeliveryStep>) -> Seq<DeliveryView> {
    steps.map_values(|s: DeliveryStep| s@)
}

/// How an upload went.
#[derive(Debug, PartialEq, Eq)]
pub enum Upload {
    /// There was nothing to upload.
    Skipped,
    Sent,
    Failed { error: String },
}

/// What a turn delivers.
#[derive(Debug)]
pub struct Delivery {
    /// A post was streamed, and stands in the thread.
    pub streamed: bool,
    /// The message to reply to.
    pub reply_to: Option<String>,
    /// The whole text.
    pub content: String,
    /// The text in messages; none if there is no text.
    pub chunks: Vec<String>,
    /// There are files to upload.
    pub attaching: bool,
}

/// The text as new messages; the first is a reply, where there is a message to
/// reply to.
pub open spec fn text_steps(chunks: Seq<Seq<char>>, reply_to: Option<Seq<char>>) -> Seq<
    DeliveryView,
> {
    Seq::new(
        chunks.len(),
        |i: int|
            match reply_to {
                Some(id) if i == 0 => DeliveryView::SendReply { content: chunks[i], reply_to: id },
                _ => DeliveryView::Send { content: chunks[i] },
            },
    )
}

/// Tells of a failed upload.
pub open spec fn upload_failure(error: Seq<char>) -> Seq<char> {
    "⚠️ Failed to send attachment: "@ + error
}

fn upload_failure_text(error: &str) -> (r: String)
    ensures
        r@ == upload_failure(error@),
{
    let mut out = "⚠️ Failed to send attachment: ".to_owned();
    out.push_str(error);
    out
}

fn text_steps_from(chunks: &Vec<String>, reply_to: &Option<String>, from: usize) -> (r: Vec<
    DeliveryStep,
>)
    ensures
        delivery_views(r@) == if from <= chunks@.len() {
            text_steps(crate::text::texts(chunks@), crate::text::opt_text(*reply_to)).skip(
                from as int,
            )
        } else {
            Seq::empty()
        },
{
    let ghost all = text_steps(crate::text::texts(chunks@), crate::text::opt_text(*reply_to));
    let mut out: Vec<DeliveryStep> = Vec::new();
    let mut i: usize = from;
    while i < chunks.len()
        invariant
            from <= i,
            from <= chunks@.len() ==> i <= chunks@.len(),
            all == text_steps(crate::text::texts(chunks@), crate::text::opt_text(*reply_to)),
            from <= chunks@.len() ==> delivery_views(out@) =~= all.subrange(from as int, i as int),
            from > chunks@.len() ==> out@.len() == 0,
        decreases chunks.len() - i,
    {
        let ghost before = out@;
        let content = chunks[i].clone();
        let step = match reply_to {
            Some(id) if i == 0 => DeliveryStep::SendReply { content, reply_to: id.clone() },
            _ => DeliveryStep::Send { content },
        };
        let ghost view = step@;
        out.push(step);
        assert(all[i as int] == view);
        assert(delivery_views(out@) =~= delivery_views(before).push(view));
        i += 1;
    }
    proof {
        if from <= chunks@.len() {
            assert(all.subrange(from as int, chunks@.len() as int) =~= all.skip(from as int));
        } else {
            assert(delivery_views(out@) =~= Seq::empty());
        }
    }
    out
}

impl Delivery {
    /// What a turn delivers: its content in messages that the platform takes.
    pub fn prepare(
        streamed: bool,
        reply_to: Option<String>,
        content: String,
        message_limit: usize,
        attaching: bool,
    ) -> (r: Self)
        ensures
            r.streamed == streamed,
            r.reply_to == reply_to,
            r.content == content,
            r.texts() == crate::turn::final_messages(content@, message_limit as nat),
            r.attaching == attaching,
            r.wf(),
    {
        let chunks = final_chunks(content.as_str(), message_limit);
        proof {
            let limit = message_limit as nat;
            if content@.len() > 0 {
                assert(crate::format::messages(content@, limit).len() > 0);
            }
        }
        Delivery { streamed, reply_to, content, chunks, attaching }
    }

    /// There are messages exactly if there is text.
    pub open spec fn wf(&self) -> bool {
        self.texts().len() > 0 <==> self.content@.len() > 0
    }

    pub open spec fn texts(&self) -> Seq<Seq<char>> {
        crate::text::texts(self.chunks@)
    }

    pub open spec fn target(&self) -> Option<Seq<char>> {
        crate::text::opt_text(self.reply_to)
    }

    /// What is done before the files are uploaded. A streamed post becomes the
    /// text, unless the text is to be a reply; a text that comes without a post
    /// is sent, unless it goes with the files.
    pub open spec fn first(&self) -> Seq<DeliveryView> {
        if self.streamed {
            if self.reply_to is Some {
                text_steps(self.texts(), self.target())
            } else if self.content@.len() > 0 {
                seq![DeliveryView::EditPost { content: self.content@ }]
            } else {
                Seq::empty()
            }
        } else if self.attaching {
            Seq::empty()
        } else {
            text_steps(self.texts(), self.target())
        }
    }

    /// The text and the message to reply to that go with the first files.
    pub open spec fn upload(&self) -> (Seq<char>, Option<Seq<char>>) {
        if self.streamed {
            (
                Seq::empty(),
                if self.texts().len() == 0 {
                    self.target()
                } else {
                    None
                },
            )
        } else {
            (
                if self.texts().len() == 0 {
                    Seq::empty()
                } else {
                    self.texts()[0]
                },
                self.target(),
            )
        }
    }

    /// The reply stands in the thread.
    pub open spec fn answered(&self, reply_sent: bool, upload: Upload) -> bool {
        if self.reply_to is Some {
            (self.texts().len() > 0 && reply_sent) || (self.texts().len() == 0 && upload is Sent)
        } else {
            self.texts().len() == 0 && upload is Sent
        }
    }

    /// What is done after the upload. A failed upload is told, and the text
    /// that should have gone with the files is sent by itself. The streamed
    /// post goes only when a reply has taken its place.
    pub open spec fn last(&self, reply_sent: bool, upload: Upload) -> Seq<DeliveryView> {
        if self.streamed {
            (match upload {
                Upload::Failed { error } => if self.texts().len() == 0 {
                    seq![DeliveryView::EditPost { content: upload_failure(error@) }]
                } else {
                    seq![DeliveryView::Send { content: upload_failure(error@) }]
                },
                _ => Seq::empty(),
            }) + if self.answered(reply_sent, upload) {
                seq![DeliveryView::DeletePost]
            } else {
                Seq::empty()
            }
        } else {
            match upload {
                Upload::Skipped => Seq::empty(),
                Upload::Sent => if self.texts().len() == 0 {
                    Seq::empty()
                } else {
                    text_steps(self.texts(), self.target()).skip(1)
                },
                Upload::Failed { error } => text_steps(self.texts(), self.target()).push(
                    DeliveryView::Send { content: upload_failure(error@) },
                ),
            }
        }
    }

    /// What to do before the files are uploaded.
    pub fn first_steps(&self) -> (r: Vec<DeliveryStep>)
        ensures
            delivery_views(r@) == self.first(),
    {
        let mut out: Vec<DeliveryStep> = Vec::new();
        assert(delivery_views(out@) =~= Seq::empty());
        let text = if self.streamed {
            self.reply_to.is_some()
        } else {
            !self.attaching
        };
        if text {
            let steps = text_steps_from(&self.chunks, &self.reply_to, 0);
            assert(text_steps(self.texts(), self.target()).skip(0) =~= text_steps(
                self.texts(),
                self.target(),
            ));
            return steps;
        }
        if self.streamed && !self.content.as_str().is_empty() {
            out.push(DeliveryStep::EditPost { content: self.content.clone() });
            assert(delivery_views(out@) =~= seq![
                DeliveryView::EditPost { content: self.content@ },
            ]);
        }
        out
    }

    /// The text and the message to reply to that go with the first files.
    pub fn upload_with(&self) -> (r: (String, Option<String>))
        ensures
            (r.0@, crate::text::opt_text(r.1)) == self.upload(),
    {
        let none = self.chunks.len() == 0;
        assert(self.texts().len() == self.chunks@.len());
        if self.streamed {
            let reply_to = if none {
                copy_opt(&self.reply_to)
            } else {
                None
            };
            (String::new(), reply_to)
        } else {
            let content = if none {
                String::new()
            } else {
                self.chunks[0].clone()
            };
            (content, copy_opt(&self.reply_to))
        }
    }

    /// What to do after the upload. `reply_sent` says whether the reply among
    /// the first steps was sent.
    pub fn last_steps(&self, reply_sent: bool, upload: &Upload) -> (r: Vec<DeliveryStep>)
        ensures
            delivery_views(r@) == self.last(reply_sent, *upload),
    {
        assert(self.texts().len() == self.chunks@.len());
        let mut out: Vec<DeliveryStep> = Vec::new();
        assert(delivery_views(out@) =~= Seq::empty());
        let none = self.chunks.len() == 0;
        let sent = match upload {
            Upload::Sent => true,
            _ => false,
        };
        if self.streamed {
            if let Upload::Failed { error } = upload {
                let content = upload_failure_text(error.as_str());
                let step = if none {
                    DeliveryStep::EditPost { content }
                } else {
                    DeliveryStep::Send { content }
                };
                let ghost view = step@;
                out.push(step);
                assert(delivery_views(out@) =~= seq![view]);
            }
            let answered = if none {
                sent
            } else {
                self.reply_to.is_some() && reply_sent
            };
            if answered {
                let ghost before = out@;
                out.push(DeliveryStep::DeletePost);
                assert(delivery_views(out@) =~= delivery_views(before) + seq![
                    DeliveryView::DeletePost,
                ]);
            }
            assert(delivery_views(out@) =~= self.last(reply_sent, *upload));
            return out;
        }
        match upload {
            Upload::Skipped => out,
            Upload::Sent => if none {
                out
            } else {
                text_steps_from(&self.chunks, &self.reply_to, 1)
            },
            Upload::Failed { error } => {
                let mut steps = text_steps_from(&self.chunks, &self.reply_to, 0);
                let ghost before = steps@;
                assert(text_steps(self.texts(), self.target()).skip(0) =~= text_steps(
                    self.texts(),
                    self.target(),
                ));
                let step = DeliveryStep::Send { content: upload_failure_text(error.as_str()) };
                let ghost view = step@;
                steps.push(step);
                assert(delivery_views(steps@) =~= delivery_views(before).push(view));
                steps
            },
        }
    }

    /// The streamed post is deleted exactly when a reply has taken its place:
    /// what was shown is never lost to a failed send.
    pub proof fn lemma_post_kept_until_answered(&self, reply_sent: bool, upload: Upload)
        ensures
            self.last(reply_sent, upload).contains(DeliveryView::DeletePost) <==> self.streamed
                && self.answered(reply_sent, upload),
            !self.first().contains(DeliveryView::DeletePost),
    {
        let last = self.last(reply_sent, upload);
        if self.streamed && self.answered(reply_sent, upload) {
            assert(last[last.len() - 1] == DeliveryView::DeletePost);
        }
    }

    /// A text is delivered whole whether or not the upload succeeds: each of
    /// its messages is sent or, for a streamed post, shown in its place.
    pub proof fn lemma_text_survives(&self, reply_sent: bool, upload: Upload, i: int)
        requires
            self.wf(),
            0 <= i < self.texts().len(),
            upload is Skipped <==> !self.attaching,
        ensures
            ({
                let reply = DeliveryView::SendReply {
                    content: self.texts()[i],
                    reply_to: self.target()->0,
                };
                let send = DeliveryView::Send { content: self.texts()[i] };
                let all = self.first() + self.last(reply_sent, upload);
                ||| all.contains(send)
                ||| self.reply_to is Some && all.contains(reply)
                ||| i == 0 && upload is Sent && self.upload().0 == self.texts()[i]
                ||| all.contains(DeliveryView::EditPost { content: self.content@ })
            }),
    {
        let steps = text_steps(self.texts(), self.target());
        let first = self.first();
        let last = self.last(reply_sent, upload);
        let all = first + last;
        if self.streamed {
            if self.reply_to is Some {
                assert(all[i] == steps[i]);
            } else {
                assert(all[0] == DeliveryView::EditPost { content: self.content@ });
            }
        } else if !self.attaching {
            assert(all[i] == steps[i]);
        } else if upload is Sent {
            if i > 0 {
                assert(last[i - 1] == steps[i]);
                assert(all[i - 1] == steps[i]);
            }
        } else {
            assert(last[i] == steps[i]);
            assert(all[i] == steps[i]);
        }
    }

    /// A failed upload is always told.
    pub proof fn lemma_failed_upload_is_told(&self, reply_sent: bool, error: String)
        ensures
            ({
                let last = self.last(reply_sent, Upload::Failed { error });
                let told = upload_failure(error@);
                ||| last.contains(DeliveryView::Send { content: told })
                ||| last.contains(DeliveryView::EditPost { content: told })
            }),
    {
        let last = self.last(reply_sent, Upload::Failed { error });
        if self.streamed {
            assert(last[0] == last[0]);
        } else {
            assert(last[last.len() - 1] == DeliveryView::Send { content: upload_failure(error@) });
        }
    }
}

// ---------------------------------------------------------------------------
// What reaches the thread
// ---------------------------------------------------------------------------

/// The texts that steps send as messages, in order.
pub open spec fn sent_texts(steps: Seq<DeliveryView>) -> Seq<Seq<char>>
    decreases steps.len(),
{
    if steps.len() == 0 {
        Seq::empty()
    } else {
        let front = sent_texts(steps.drop_last());
        match steps.last() {
            DeliveryView::SendReply { content, reply_to } => front.push(content),
            DeliveryView::Send { content } => front.push(content),
            _ => front,
        }
    }
}

proof fn lemma_sent_together(a: Seq<DeliveryView>, b: Seq<DeliveryView>)
    ensures
        sent_texts(a + b) == sent_texts(a) + sent_texts(b),
    decreases b.len(),
{
    if b.len() == 0 {
        assert(a + b =~= a);
        assert(sent_texts(a) + sent_texts(b) =~= sent_texts(a));
    } else {
        assert((a + b).drop_last() =~= a + b.drop_last());
        lemma_sent_together(a, b.drop_last());
        assert(sent_texts(a + b) =~= sent_texts(a) + sent_texts(b));
    }
}

proof fn lemma_text_steps_send(chunks: Seq<Seq<char>>, reply_to: Option<Seq<char>>, n: int)
    requires
        0 <= n <= chunks.len(),
    ensures
        sent_texts(text_steps(chunks, reply_to).take(n)) == chunks.take(n),
    decreases n,
{
    let steps = text_steps(chunks, reply_to);
    if n > 0 {
        lemma_text_steps_send(chunks, reply_to, n - 1);
        assert(steps.take(n).drop_last() =~= steps.take(n - 1));
        assert(steps.take(n).last() == steps[n - 1]);
        assert(chunks.take(n - 1).push(chunks[n - 1]) =~= chunks.take(n));
    } else {
        assert(chunks.take(0) =~= Seq::empty());
    }
}

proof fn lemma_all_text_steps_send(chunks: Seq<Seq<char>>, reply_to: Option<Seq<char>>)
    ensures
        sent_texts(text_steps(chunks, reply_to)) == chunks,
{
    let n = chunks.len() as int;
    lemma_text_steps_send(chunks, reply_to, n);
    assert(text_steps(chunks, reply_to).take(n) =~= text_steps(chunks, reply_to));
    assert(chunks.take(n) =~= chunks);
}

proof fn lemma_later_text_steps_send(chunks: Seq<Seq<char>>, reply_to: Option<Seq<char>>)
    requires
        chunks.len() > 0,
    ensures
        sent_texts(text_steps(chunks, reply_to).skip(1)) == chunks.skip(1),
{
    let steps = text_steps(chunks, reply_to);
    lemma_all_text_steps_send(chunks, reply_to);
    lemma_sent_together(steps.take(1), steps.skip(1));
    lemma_text_steps_send(chunks, reply_to, 1);
    assert(steps.take(1) + steps.skip(1) =~= steps);
    assert(chunks.take(1) + chunks.skip(1) =~= chunks);
    let later = sent_texts(steps.skip(1));
    assert((chunks.take(1) + later).skip(1) =~= later);
}

impl Delivery {
    /// Where there is a message to reply to, the first message of the text is a
    /// reply to it, however many there are, and no other step is a reply; where
    /// there is none, no step is.
    pub proof fn lemma_first_message_replies(&self, reply_sent: bool, upload: Upload)
        ensures
            self.reply_to is Some && self.texts().len() > 0 && (self.streamed || !self.attaching)
                ==> self.first().len() > 0 && self.first()[0] == (DeliveryView::SendReply {
                content: self.texts()[0],
                reply_to: self.reply_to->0@,
            }),
            self.reply_to is Some && self.texts().len() > 0 && !self.streamed && upload is Failed
                ==> self.last(reply_sent, upload).len() > 0 && self.last(reply_sent, upload)[0]
                == (DeliveryView::SendReply {
                content: self.texts()[0],
                reply_to: self.reply_to->0@,
            }),
            forall|i: int|
                1 <= i < self.first().len() ==> !((#[trigger] self.first()[i]) is SendReply),
            forall|i: int|
                1 <= i < self.last(reply_sent, upload).len() ==> !((#[trigger] self.last(
                    reply_sent,
                    upload,
                )[i]) is SendReply),
            self.reply_to is None ==> forall|i: int|
                0 <= i < self.first().len() ==> !((#[trigger] self.first()[i]) is SendReply),
            self.reply_to is None ==> forall|i: int|
                0 <= i < self.last(reply_sent, upload).len() ==> !((#[trigger] self.last(
                    reply_sent,
                    upload,
                )[i]) is SendReply),
            self.streamed || upload is Sent || upload is Skipped ==> forall|i: int|
                0 <= i < self.last(reply_sent, upload).len() ==> !((#[trigger] self.last(
                    reply_sent,
                    upload,
                )[i]) is SendReply),
    {
        let steps = text_steps(self.texts(), self.target());
        if upload is Sent && self.texts().len() > 0 {
            assert forall|i: int| 0 <= i < steps.skip(1).len() implies !((
            #[trigger] steps.skip(1)[i]) is SendReply) by {
                assert(steps.skip(1)[i] == steps[i + 1]);
            }
        }
    }

    /// A text that comes without a post reaches the thread once, in order:
    /// either all of it is sent, or its first message goes with the files and
    /// the others follow. Only a failed upload adds a message, the last.
    pub proof fn lemma_text_is_sent_once(&self, reply_sent: bool, upload: Upload)
        requires
            !self.streamed,
            upload is Skipped <==> !self.attaching,
        ensures
            ({
                let sent = sent_texts(self.first()) + sent_texts(self.last(reply_sent, upload));
                match upload {
                    Upload::Skipped => sent == self.texts(),
                    Upload::Sent => if self.texts().len() == 0 {
                        sent.len() == 0 && self.upload().0.len() == 0
                    } else {
                        self.upload().0 == self.texts()[0] && sent == self.texts().skip(1)
                    },
                    Upload::Failed { error } => sent == self.texts().push(
                        "⚠️ Failed to send attachment: "@ + error@,
                    ),
                }
            }),
            self.upload().1 == self.target(),
    {
        let steps = text_steps(self.texts(), self.target());
        lemma_all_text_steps_send(self.texts(), self.target());
        let sent = sent_texts(self.first()) + sent_texts(self.last(reply_sent, upload));
        assert(sent_texts(Seq::empty()) == Seq::<Seq<char>>::empty());
        match upload {
            Upload::Skipped => {
                assert(sent =~= self.texts());
            },
            Upload::Sent => {
                if self.texts().len() > 0 {
                    lemma_later_text_steps_send(self.texts(), self.target());
                    assert(sent =~= self.texts().skip(1));
                }
            },
            Upload::Failed { error } => {
                let told = DeliveryView::Send { content: upload_failure(error@) };
                assert(steps.push(told).drop_last() =~= steps);
                assert(sent =~= self.texts().push(upload_failure(error@)));
            },
        }
    }

    /// A streamed text reaches the thread once: as messages where it is a reply,
    /// else in place of the post. A failed upload adds one message, or is shown
    /// in the post where there is no text.
    pub proof fn lemma_streamed_text_is_shown_once(&self, reply_sent: bool, upload: Upload)
        requires
            self.streamed,
        ensures
            self.reply_to is Some ==> sent_texts(self.first()) == self.texts() && forall|i: int|
                0 <= i < self.first().len() ==> !((#[trigger] self.first()[i]) is EditPost),
            self.reply_to is None && self.content@.len() > 0 ==> self.first() == seq![
                DeliveryView::EditPost { content: self.content@ },
            ],
            self.reply_to is None && self.content@.len() == 0 ==> self.first().len() == 0,
            sent_texts(self.last(reply_sent, upload)) == if upload is Failed && self.texts().len()
                > 0 {
                seq!["⚠️ Failed to send attachment: "@ + upload->error@]
            } else {
                Seq::empty()
            },
            self.upload().0.len() == 0,
            self.upload().1 == if self.texts().len() == 0 {
                self.target()
            } else {
                None
            },
    {
        lemma_all_text_steps_send(self.texts(), self.target());
        let last = self.last(reply_sent, upload);
        let none = Seq::<DeliveryView>::empty();
        let gone = seq![DeliveryView::DeletePost];
        assert(gone.drop_last() =~= none);
        assert(sent_texts(none) == Seq::<Seq<char>>::empty());
        assert(sent_texts(gone.drop_last()) == Seq::<Seq<char>>::empty());
        assert(sent_texts(gone) == Seq::<Seq<char>>::empty());
        let told = match upload {
            Upload::Failed { error } => if self.texts().len() == 0 {
                seq![DeliveryView::EditPost { content: upload_failure(error@) }]
            } else {
                seq![DeliveryView::Send { content: upload_failure(error@) }]
            },
            _ => none,
        };
        let after = if self.answered(reply_sent, upload) {
            gone
        } else {
            none
        };
        assert(last == told + after);
        lemma_sent_together(told, after);
        if upload is Failed {
            assert(told.drop_last() =~= none);
            assert(sent_texts(told.drop_last()) == Seq::<Seq<char>>::empty());
        }
        assert(sent_texts(last) =~= sent_texts(told));
    }

    /// The streamed post is deleted exactly in these cases: the reply that was
    /// to take its place was sent, or the files that stand for the answer were.
    pub proof fn lemma_when_the_post_goes(&self, reply_sent: bool, upload: Upload)
        ensures
            self.last(reply_sent, upload).contains(DeliveryView::DeletePost) <==> self.streamed
                && (if self.texts().len() == 0 {
                upload is Sent
            } else {
                self.reply_to is Some && reply_sent
            }),
            self.last(reply_sent, upload).contains(DeliveryView::DeletePost) ==> self.last(
                reply_sent,
                upload,
            ).last() == DeliveryView::DeletePost,
    {
        self.lemma_post_kept_until_answered(reply_sent, upload);
    }
}

} // verus!
