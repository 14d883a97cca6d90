use yanor_core::update::Effect;
use yanor_core::Message;
use yanor_core::Text;
use yanor_core::Updatable;
use yanor_core::UpdateQueue;

/// Emits one labelled log effect per update and reschedules itself with a
/// fixed period for a fixed number of turns; can be switched off.
struct Emitter {
    label: &'static str,
    period: u32,
    turns_left: u32,
    active: bool,
}

impl Emitter {
    fn new(label: &'static str, period: u32, turns: u32) -> Self {
        Emitter {
            label,
            period,
            turns_left: turns,
            active: true,
        }
    }
}

impl Updatable for Emitter {
    fn update(&mut self, effects: &mut Vec<Effect>) -> Option<u32> {
        effects.push(Effect::Log(Message::normal(vec![Text::normal(self.label)])));

        if self.turns_left > 1 {
            self.turns_left -= 1;
            Some(self.period)
        } else {
            None
        }
    }

    fn is_active(&self) -> bool {
        self.active
    }

    fn deactivate(&mut self) {
        self.active = false;
    }
}

fn drain_labels(effects: &mut Vec<Effect>, labels: &mut Vec<String>) {
    for effect in effects.drain(..) {
        match effect {
            Effect::Log(msg) => labels.push(msg.contents[0].text.clone()),
        }
    }
}

#[test]
fn empty_queue_is_exhausted() {
    let mut queue: UpdateQueue<Emitter> = UpdateQueue::new();
    let mut effects = Vec::new();

    assert_eq!(queue.update(&mut effects), None);
    assert!(effects.is_empty());
}

#[test]
fn ticks_are_nondecreasing() {
    let mut queue = UpdateQueue::new();
    queue.push(7, Emitter::new("a", 3, 4));
    queue.push(0, Emitter::new("b", 5, 3));
    queue.push(7, Emitter::new("c", 1, 5));
    queue.push(2, Emitter::new("d", 0, 2));

    let mut effects = Vec::new();
    let mut times = Vec::new();

    while let Some(time) = queue.update(&mut effects) {
        times.push(time);
    }

    for pair in times.windows(2) {
        assert!(pair[0] <= pair[1]);
    }
}

#[test]
fn zero_delay_means_immediate_reeligibility() {
    let mut queue = UpdateQueue::new();
    queue.push(4, Emitter::new("twice", 0, 2));

    let mut effects = Vec::new();
    assert_eq!(queue.update(&mut effects), Some(4));
    assert_eq!(queue.update(&mut effects), Some(4));
    assert_eq!(queue.update(&mut effects), None);
}

#[test]
fn finished_entity_is_never_invoked_again() {
    let mut queue = UpdateQueue::new();
    queue.push(0, Emitter::new("once", 9, 1));

    let mut effects = Vec::new();
    assert_eq!(queue.update(&mut effects), Some(0));
    assert_eq!(queue.update(&mut effects), None);
    assert_eq!(queue.update(&mut effects), None);
    // Its only update ran exactly once.
    assert_eq!(effects.len(), 1);
}

#[test]
fn deactivated_entity_is_skipped_and_discarded() {
    let mut queue = UpdateQueue::new();
    let mut silenced = Emitter::new("silenced", 1, 10);
    silenced.deactivate();
    queue.push(0, silenced);
    queue.push(5, Emitter::new("kept", 1, 1));

    let mut effects = Vec::new();
    let mut labels = Vec::new();

    // The inactive entry due at tick 0 is discarded on its turn; the first
    // processed entity is the active one due at tick 5.
    assert_eq!(queue.update(&mut effects), Some(5));
    drain_labels(&mut effects, &mut labels);
    assert_eq!(queue.update(&mut effects), None);
    drain_labels(&mut effects, &mut labels);

    assert_eq!(labels, vec!["kept".to_string()]);
}

#[test]
fn effects_drain_in_processing_order() {
    let mut queue = UpdateQueue::new();
    queue.push(1, Emitter::new("second", 2, 2));
    queue.push(0, Emitter::new("first", 4, 2));

    let mut effects = Vec::new();
    let mut labels = Vec::new();

    while let Some(_) = queue.update(&mut effects) {
        drain_labels(&mut effects, &mut labels);
    }

    // Processing order: first@0, second@1, second@3, first@4.
    let expected = vec![
        "first".to_string(),
        "second".to_string(),
        "second".to_string(),
        "first".to_string(),
    ];
    assert_eq!(labels, expected);
}

#[test]
fn equal_ticks_run_in_push_order() {
    let mut queue = UpdateQueue::new();
    queue.push(3, Emitter::new("pushed first", 1, 1));
    queue.push(3, Emitter::new("pushed second", 1, 1));

    let mut effects = Vec::new();
    let mut labels = Vec::new();

    assert_eq!(queue.update(&mut effects), Some(3));
    assert_eq!(queue.update(&mut effects), Some(3));
    drain_labels(&mut effects, &mut labels);

    assert_eq!(
        labels,
        vec!["pushed first".to_string(), "pushed second".to_string()]
    );
}

#[test]
fn rescheduling_saturates_at_max_tick() {
    let mut queue = UpdateQueue::new();
    queue.push(u32::MAX - 1, Emitter::new("late", 10, 2));

    let mut effects = Vec::new();
    assert_eq!(queue.update(&mut effects), Some(u32::MAX - 1));
    assert_eq!(queue.update(&mut effects), Some(u32::MAX));
    assert_eq!(queue.update(&mut effects), None);
}

#[test]
fn normal_message_shape() {
    let msg = Message::normal(vec![Text::normal("hi")]);
    assert!(!msg.hidden);
    assert_eq!(msg.contents.len(), 1);
    assert_eq!(msg.contents[0].text, "hi");
}

#[test]
fn text_styles() {
    let plain = Text::normal("p");
    assert!(!plain.bold && !plain.italic);
    assert_eq!(plain.text, "p");

    let heavy = Text::bold("b");
    assert!(heavy.bold && !heavy.italic);
    assert_eq!(heavy.text, "b");

    let slanted = Text::italic("i");
    assert!(!slanted.bold && slanted.italic);
    assert_eq!(slanted.text, "i");
}
