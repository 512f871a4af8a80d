use std::collections::HashMap;

use message_format::{
    MessageGroup, MessagePattern, PHValsMap, PatternPart, Placeholder, PlaceholderType,
    SingleMessage, TextPart,
};

fn selector(pairs: &[(&str, &str)]) -> PHValsMap {
    let mut m = PHValsMap::new();
    for (k, v) in pairs {
        m.insert(String::from(*k), String::from(*v));
    }
    m
}

#[test]
fn test_ph_vals_map_hasheq() {
    let ph_vals1 = selector(&[("COUNT", "5")]);
    let ph_vals2 = selector(&[("COUNT", "14")]);
    let ph_vals3 = selector(&[("COUNT", "5")]);

    assert_eq!(&ph_vals1, &ph_vals3);
    assert_ne!(&ph_vals1, &ph_vals2);
    assert_ne!(&ph_vals2, &ph_vals3);

    let ph_vals4 = selector(&[("count", "5"), ("COUNT", "5")]);

    assert_ne!(&ph_vals1, &ph_vals4);
    assert_ne!(&ph_vals3, &ph_vals4);
}

#[test]
fn test_construct_message() {
    // Selector sets for selecting specific messages.
    let ph_vals1 = selector(&[("COUNT", "=0")]);
    let ph_vals2 = selector(&[("COUNT", "ONE")]);
    let ph_vals3 = selector(&[("COUNT", "OTHER")]);

    let msg1 = SingleMessage {
        id: String::from("msg1"),
        locale: String::from("en"),
        pattern: MessagePattern {
            parts: vec![PatternPart::TEXTPART(TextPart {
                text: String::from("No items selected."),
            })],
        },
        ph_vals: ph_vals1.clone(),
    };
    let msg2 = SingleMessage {
        id: String::from("msg2"),
        locale: String::from("en"),
        pattern: MessagePattern {
            parts: vec![
                PatternPart::PLACEHOLDER(Placeholder {
                    id: String::from("COUNT"),
                    ph_type: PlaceholderType::PLURAL,
                    default_text_val: Option::None,
                }),
                PatternPart::TEXTPART(TextPart { text: String::from(" item selected.") }),
            ],
        },
        ph_vals: ph_vals2.clone(),
    };
    let msg3 = SingleMessage {
        id: String::from("msg3"),
        locale: String::from("en"),
        pattern: MessagePattern {
            parts: vec![
                PatternPart::PLACEHOLDER(Placeholder {
                    id: String::from("COUNT"),
                    ph_type: PlaceholderType::PLURAL,
                    default_text_val: Option::None,
                }),
                PatternPart::TEXTPART(TextPart { text: String::from(" items selected.") }),
            ],
        },
        ph_vals: ph_vals3.clone(),
    };

    let mut messages: HashMap<PHValsMap, SingleMessage> = HashMap::new();
    messages.insert(ph_vals1.clone(), msg1.clone());
    messages.insert(ph_vals2.clone(), msg2.clone());
    messages.insert(ph_vals3.clone(), msg3.clone());

    println!("msg1: {}", messages.get(&ph_vals1).unwrap().to_string());
    println!("msg2: {}", messages.get(&ph_vals2).unwrap().to_string());
    println!("msg3: {}", messages.get(&ph_vals3).unwrap().to_string());

    let mut msg_grp = MessageGroup::new(String::from("msg_grp"));
    msg_grp.insert(msg1).unwrap();
    msg_grp.insert(msg2).unwrap();
    msg_grp.insert(msg3).unwrap();

    println!("msg_grp =");
    println!("{}", msg_grp.to_string());
}
