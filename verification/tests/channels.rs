use rust_redis::channels::Channels;
use std::sync::mpsc::{channel, Receiver};

const CHANNEL_1: &str = "1";
const CHANNEL_2: &str = "2";
const CHANNEL_3: &str = "3";
const CHANNEL_4: &str = "4";
const CHANNEL_5: &str = "5";

const CHANNELS: [&str; 5] = [CHANNEL_1, CHANNEL_2, CHANNEL_3, CHANNEL_4, CHANNEL_5];

const ID_1: u32 = 1;
const ID_2: u32 = 2;
const ID_3: u32 = 3;
const ID_4: u32 = 4;
const ID_5: u32 = 5;
const IDS: [u32; 5] = [ID_1, ID_2, ID_3, ID_4, ID_5];

const MSG: &str = "hola";

fn add_channels(channels: &mut Channels) -> Vec<Receiver<String>> {
    let mut receivers = Vec::new();
    for i in 1..6 {
        let (s, r) = channel();
        channels.subscribe(&i.to_string(), s, i);
        receivers.push(r);
    }

    receivers
}

fn add_all_channels_in_all_clients(channels: &mut Channels) -> Vec<Receiver<String>> {
    let mut receivers = Vec::new();
    for id in &IDS {
        let (s, r) = channel();
        receivers.push(r);
        for c in &CHANNELS {
            channels.subscribe(c, s.clone(), *id);
        }
    }

    receivers
}

#[test]
fn subscribe_to_different_channels() {
    let mut channels = Channels::new();
    add_channels(&mut channels);

    let names = channels.get_channels("*");

    for i in 1..6 {
        assert!(names.contains(&i.to_string()));
    }
}

#[test]
fn subscribe_to_different_channels_then_get_channels_all_channels() {
    let mut channels = Channels::new();
    add_channels(&mut channels);

    let mut c = channels.get_channels("*");
    c.sort_by(|a, b| {
        let a = a.parse::<i32>().unwrap();
        let b = b.parse::<i32>().unwrap();
        a.cmp(&b)
    });
    assert_eq!(
        c,
        vec![CHANNEL_1, CHANNEL_2, CHANNEL_3, CHANNEL_4, CHANNEL_5]
    );
}

#[test]
fn subscribe_and_send_a_msg() {
    let mut channels = Channels::new();
    let (s, r) = channel();
    channels.subscribe(CHANNEL_1, s, ID_1);

    let number = channels.send(CHANNEL_1, MSG);
    assert_eq!(number, 1);

    let r = r.recv().unwrap();
    assert_eq!(r, MSG);
}

#[test]
fn subscribe_all_channels_and_send_a_msg() {
    let mut channels = Channels::new();
    let receivers = add_channels(&mut channels);

    for c in &CHANNELS {
        let n = channels.send(c, MSG);
        assert_eq!(n, 1);
    }

    for r in receivers {
        let r = r.recv().unwrap();
        assert_eq!(r, MSG);
    }
}

#[test]
fn subscribe_a_client_to_different_channels_and_send_a_msg() {
    let mut channels = Channels::new();
    let (s, r) = channel();
    for c in &CHANNELS {
        channels.subscribe(c, s.clone(), ID_2);
    }

    for c in &CHANNELS {
        let n = channels.send(c, MSG);
        assert_eq!(n, 1);
    }

    let mut msgs = Vec::new();
    for _ in 1..6 {
        let msg = r.recv().unwrap();
        msgs.push(msg);
    }

    assert_eq!(msgs, vec![MSG; 5]);
}

#[test]
fn subscribe_different_clients_to_different_channeles_and_get_subscriptors_num() {
    let mut channels = Channels::new();
    add_all_channels_in_all_clients(&mut channels);

    for c in &CHANNELS {
        let number = channels.subcriptors_number(c);
        assert_eq!(number, CHANNELS.len());
    }
}

#[test]
fn subscribe_number_works_properly() {
    let mut channels = Channels::new();
    let (s, _) = channel();

    for i in 1..6 {
        channels.subscribe(CHANNEL_1, s.clone(), i);
        let number = channels.subcriptors_number(CHANNEL_1);
        assert_eq!(number, i as usize);
    }
}

#[test]
fn unsubscribe_works_properly() {
    let mut channels = Channels::new();
    let (s, r) = channel();

    channels.subscribe(CHANNEL_1, s, ID_1);
    let number = channels.send(CHANNEL_1, MSG);
    assert_eq!(number, 1);

    let r = r.recv().unwrap();
    assert_eq!(r, "hola");

    channels.unsubscribe(CHANNEL_1, ID_1);
    let number = channels.send(CHANNEL_1, MSG);
    assert_eq!(number, 0);
}

#[test]
fn subscribe_and_unsubscribe_different_clients_sending_msgs() {
    let mut channels = Channels::new();
    let receivers = add_all_channels_in_all_clients(&mut channels);

    for c in &CHANNELS {
        let n = channels.send(c, MSG);
        assert_eq!(n, 5);
    }

    for r in &receivers {
        let mut msgs = Vec::new();
        for _ in 1..6 {
            let msg = r.recv().unwrap();
            msgs.push(msg);
        }

        assert_eq!(msgs, vec![MSG; 5]);
    }

    channels.unsubscribe(CHANNEL_5, ID_1);

    channels.unsubscribe(CHANNEL_4, ID_1);
    channels.unsubscribe(CHANNEL_4, ID_2);

    channels.unsubscribe(CHANNEL_3, ID_1);
    channels.unsubscribe(CHANNEL_3, ID_2);
    channels.unsubscribe(CHANNEL_3, ID_3);

    channels.unsubscribe(CHANNEL_2, ID_1);
    channels.unsubscribe(CHANNEL_2, ID_2);
    channels.unsubscribe(CHANNEL_2, ID_3);
    channels.unsubscribe(CHANNEL_2, ID_4);

    channels.unsubscribe(CHANNEL_1, ID_1);
    channels.unsubscribe(CHANNEL_1, ID_2);
    channels.unsubscribe(CHANNEL_1, ID_3);
    channels.unsubscribe(CHANNEL_1, ID_4);
    channels.unsubscribe(CHANNEL_1, ID_5);

    for c in &CHANNELS {
        channels.send(c, MSG);
    }

    for i in 0..5 {
        let r = receivers.get(i).unwrap();
        let mut msgs = Vec::new();
        for _ in 0..i {
            let msg = r.recv().unwrap();
            msgs.push(msg);
        }

        assert_eq!(msgs, vec![MSG; i]);
    }
}
