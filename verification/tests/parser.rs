use twitchparser::badge::decode_badges;
use twitchparser::badge::encode_badge_list;
use twitchparser::badge::Badge;
use twitchparser::badge::BadgeType;
use twitchparser::badge::ParseError;
use twitchparser::parser::parse;
use twitchparser::parser::ParseResultBuilder;

const MSG: &'static str = "@badges=moderator/1,subscriber/6,turbo/1;color=#CC008D;display-name=KushyLife;emotes=;id=4fc69423-4845-483d-93e5-c193be554965;mod=1;room-id=110690086;subscriber=1;tmi-sent-ts=1531789918256;turbo=1;user-id=37734410;user-type=mod :kushylife!kushylife@kushylife.tmi.twitch.tv PRIVMSG #tsm_myth :@saucymike01 obv not banned";

fn expected_badges() -> Vec<Badge> {
    vec![
        Badge {
            name: BadgeType::Moderator,
            variant: 1,
        },
        Badge {
            name: BadgeType::Subscriber,
            variant: 6,
        },
        Badge {
            name: BadgeType::Turbo,
            variant: 1,
        },
    ]
}

#[test]
fn parse_privmsg() {
    assert_eq!(
        String::from("#tsm_myth :@saucymike01 obv not banned"),
        ParseResultBuilder::new(MSG).parse_privmsg().build().privmsg
    );
}

#[test]
fn parse_badge_enum() {
    let badge_type: BadgeType = BadgeType::from_str("moderator").unwrap();
    assert_eq!(BadgeType::Moderator, badge_type);
}

#[test]
fn parse_badges() {
    assert_eq!(
        expected_badges(),
        ParseResultBuilder::new(MSG)
            .parse_badges()
            .unwrap()
            .badges
    );
}

#[test]
fn parse_full_line_payload() {
    let result = parse(MSG).unwrap();
    assert_eq!("#tsm_myth :@saucymike01 obv not banned", result.privmsg);
}

#[test]
fn parse_full_line_badges_in_order() {
    let result = parse(MSG).unwrap();
    assert_eq!(expected_badges(), result.badges);
}

#[test]
fn parse_records_raw_tag_source() {
    let result = parse(MSG).unwrap();
    let first_token = MSG.split(' ').next().unwrap();
    assert_eq!(first_token, result.badgestr);
}

#[test]
fn no_keyword_means_empty_payload() {
    let result = parse(":nick!user@host JOIN #channel").unwrap();
    assert_eq!("", result.privmsg);
}

#[test]
fn keyword_as_last_token_means_empty_payload() {
    let result = parse(":nick!user@host PRIVMSG").unwrap();
    assert_eq!("", result.privmsg);
}

#[test]
fn consecutive_spaces_are_preserved_in_payload() {
    let result = parse("PRIVMSG #chan  two  spaces").unwrap();
    assert_eq!("#chan  two  spaces", result.privmsg);
}

#[test]
fn tokens_are_whitespace_trimmed() {
    let result = parse("\tPRIVMSG hello\r").unwrap();
    assert_eq!("hello", result.privmsg);
}

#[test]
fn no_badge_prefix_means_no_badges() {
    let result = parse(":nick!user@host PRIVMSG #chan :hello").unwrap();
    assert_eq!("", result.badgestr);
    assert!(result.badges.is_empty());
}

#[test]
fn empty_line_parses_to_empty_result() {
    let result = parse("").unwrap();
    assert_eq!("", result.privmsg);
    assert_eq!("", result.badgestr);
    assert!(result.badges.is_empty());
}

#[test]
fn badge_round_trip() {
    let body = "moderator/1,subscriber/6,turbo/1";
    let decoded = decode_badges(body).unwrap();
    assert_eq!(body, encode_badge_list(&decoded));
}

#[test]
fn empty_badge_list_round_trip() {
    let decoded = decode_badges("").unwrap();
    assert_eq!("", encode_badge_list(&decoded));
}

#[test]
fn unknown_badge_name_is_fatal() {
    let result = decode_badges("moderator/1,unknownbadge/2");
    assert_eq!(Err(ParseError::MalformedBadgeName), result);
}

#[test]
fn non_numeric_badge_level_is_fatal() {
    let result = decode_badges("moderator/abc");
    assert_eq!(Err(ParseError::MalformedBadgeLevel), result);
}

#[test]
fn out_of_range_badge_level_is_fatal() {
    let result = decode_badges("moderator/256");
    assert_eq!(Err(ParseError::MalformedBadgeLevel), result);
}

#[test]
fn largest_badge_level_is_accepted() {
    let decoded = decode_badges("subscriber/255").unwrap();
    assert_eq!(
        vec![Badge {
            name: BadgeType::Subscriber,
            variant: 255,
        }],
        decoded
    );
}

#[test]
fn missing_level_separator_is_fatal() {
    let result = decode_badges("moderator");
    assert_eq!(Err(ParseError::MalformedBadgeEntry), result);
}

#[test]
fn empty_badge_body_decodes_to_empty_list() {
    assert_eq!(Ok(vec![]), decode_badges(""));
}

#[test]
fn color_entry_stops_decoding() {
    let decoded = decode_badges("moderator/1,color=#CC008D").unwrap();
    assert_eq!(
        vec![Badge {
            name: BadgeType::Moderator,
            variant: 1,
        }],
        decoded
    );
}

#[test]
fn malformed_entry_yields_no_partial_badges() {
    let result = decode_badges("moderator/1,unknownbadge/2");
    assert!(result.is_err());
}

#[test]
fn builder_without_steps_builds_empty_result() {
    let result = ParseResultBuilder::new(MSG).build();
    assert_eq!("", result.privmsg);
    assert_eq!("", result.badgestr);
    assert!(result.badges.is_empty());
}

#[test]
fn badge_tag_failure_fails_whole_line() {
    let result = parse("@badges=moderator/xyz PRIVMSG #chan :hi");
    assert_eq!(Err(ParseError::MalformedBadgeLevel), result.map(|_| ()));
}
