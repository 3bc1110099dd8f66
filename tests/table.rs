use poker::actor::{Actor, LocalPlayer, NPC};
use poker::card::{ACE, CLUB, DIAMOND, HEART, KING, QUEEN, SPADE, TEN, THREE, TWO};
use poker::card_stack::CardStack;
use poker::player::{Player, PlayerAction};
use poker::table::{DealError, GameState, TexasHoldem, Turn};

fn three_bots(chips: usize) -> TexasHoldem {
    let mut game = TexasHoldem::new(10, 20, chips);
    game.add_player("Alice".to_string(), Actor::Npc(NPC::new("Alice".to_string())));
    game.add_player("Bob".to_string(), Actor::Npc(NPC::new("Bob".to_string())));
    game.add_player("Charlie".to_string(), Actor::Npc(NPC::new("Charlie".to_string())));
    game
}

#[test]
fn test_adding_users() {
    let mut game = TexasHoldem::new(10, 2000, 20000);

    game.add_player("Alice".to_string(), Actor::Npc(NPC::new("Alice".to_string())));
    game.add_player("Bob".to_string(), Actor::Npc(NPC::new("Bob".to_string())));
    game.add_player(
        "Charlie".to_string(),
        Actor::Npc(NPC::new("Charlie".to_string())),
    );

    assert!(game.players.len() == 3);
}

#[test]
fn repeated_calls_settle_within_one_lap() {
    let mut game = three_bots(1000);
    game.post_blinds();
    assert_eq!(game.players[1].bet, 10);
    assert_eq!(game.players[2].bet, 20);
    game.begin_betting();
    let community = CardStack::new(5);
    let mut acted = 0;
    loop {
        match game.next_turn() {
            Turn::Settled => break,
            Turn::Skip(_) => {}
            Turn::Act(seat) => {
                acted += 1;
                assert!(acted <= 3);
                let ctx = game.context(seat, &community);
                assert!(ctx.chips > 0);
                game.apply(seat, PlayerAction::Call);
            }
        }
    }
    assert!(acted <= 3);
    for p in game.players.iter() {
        assert_eq!(p.bet, 20);
        assert_eq!(p.chips, 980);
    }
    assert_eq!(game.pot(), 60);
}

#[test]
fn short_stack_goes_all_in() {
    let mut p = Player::new("Dana".to_string(), 30);
    p.bet = 10;
    p.act(100, PlayerAction::Call);
    assert_eq!(p.chips, 0);
    assert_eq!(p.bet, 40);
    let mut q = Player::new("Eve".to_string(), 30);
    q.act(0, PlayerAction::Raise(50));
    assert_eq!(q.chips, 0);
    assert_eq!(q.bet, 30);
    let mut r = Player::new("Finn".to_string(), 300);
    r.act(0, PlayerAction::Raise(50));
    assert_eq!((r.chips, r.bet), (250, 50));
    r.act(80, PlayerAction::Fold);
    assert!(r.folded);
    assert_eq!((r.chips, r.bet), (250, 50));
}

#[test]
fn all_in_player_does_not_hold_up_the_round() {
    let mut game = three_bots(1000);
    game.players[0].chips = 5;
    game.apply(1, PlayerAction::Raise(100));
    game.apply(0, PlayerAction::Call);
    assert_eq!(game.players[0].chips, 0);
    assert_eq!(game.players[0].bet, 5);
    game.apply(2, PlayerAction::Call);
    assert!(game.is_settled());
    game.turn = 2;
    assert_eq!(game.next_turn(), Turn::Settled);
}

#[test]
fn turns_rotate_and_skip() {
    let mut game = three_bots(1000);
    game.apply(2, PlayerAction::Raise(50));
    game.players[0].folded = true;
    game.turn = 1;
    assert_eq!(game.next_turn(), Turn::Act(2));
    assert_eq!(game.next_turn(), Turn::Skip(0));
    assert_eq!(game.next_turn(), Turn::Act(1));
}

#[test]
fn context_hides_other_hands() {
    let mut game = three_bots(1000);
    game.players[1].hand.push(HEART | ACE);
    game.players[1].hand.push(SPADE | ACE);
    game.apply(0, PlayerAction::Raise(40));
    let mut community = CardStack::new(5);
    community.push(CLUB | TWO);
    let ctx = game.context(1, &community);
    assert_eq!(ctx.pot, 40);
    assert_eq!(ctx.current_bet, 40);
    assert_eq!(ctx.call_amount, 40);
    assert_eq!(ctx.min_raise, 80);
    assert_eq!(ctx.contribution, 0);
    assert_eq!(ctx.chips, 1000);
    assert_eq!(ctx.hand.cards, vec![HEART | ACE, SPADE | ACE]);
    assert_eq!(ctx.community.cards, vec![CLUB | TWO]);
    assert_eq!(ctx.player_contributions, vec![40, 0, 0]);
    assert!(ctx.side_pots.is_empty());
    for view in ctx.players.iter() {
        assert_eq!(view.hand.cards, vec![0, 0]);
    }
    assert_eq!(game.actors[1].decide(&ctx), Some(PlayerAction::Call));
    let mut ctx2 = game.context(1, &community);
    ctx2.contribution = 10;
    assert_eq!(game.actors[1].decide(&ctx2), Some(PlayerAction::Fold));
    assert_eq!(Actor::Local(LocalPlayer).decide(&ctx2), None);
}

#[test]
fn phases_deal_the_right_cards() {
    let mut game = three_bots(1000);
    let mut deck = CardStack::standard_deck();
    let top: Vec<u32> = deck.cards.iter().rev().cloned().collect();
    let mut community = CardStack::new(5);
    assert_eq!(game.deal(&mut deck, &mut community), Ok(()));
    assert_eq!(game.state, GameState::Flop);
    assert_eq!(game.players[0].hand.cards, vec![top[0], top[3]]);
    assert_eq!(game.players[2].hand.cards, vec![top[2], top[5]]);
    assert_eq!(game.deal(&mut deck, &mut community), Ok(()));
    assert_eq!(community.cards, vec![top[6], top[7], top[8]]);
    assert_eq!(game.deal(&mut deck, &mut community), Ok(()));
    assert_eq!(game.deal(&mut deck, &mut community), Ok(()));
    assert_eq!(game.state, GameState::Showdown);
    assert_eq!(community.cards.len(), 5);
    assert_eq!(deck.cards.len(), 52 - 11);
}

#[test]
fn short_deck_is_an_error() {
    let mut game = three_bots(1000);
    let mut deck = CardStack::new(5);
    deck.push(HEART | ACE);
    let mut community = CardStack::new(5);
    assert_eq!(game.deal(&mut deck, &mut community), Err(DealError::EmptyDeck));
    assert_eq!(game.state, GameState::PreFlop);
    assert_eq!(deck.cards.len(), 1);
    game.state = GameState::Flop;
    assert_eq!(game.deal(&mut deck, &mut community), Err(DealError::EmptyDeck));
    assert!(community.cards.is_empty());
}

#[test]
fn showdown_pays_the_strongest() {
    let mut game = three_bots(1000);
    game.apply(0, PlayerAction::Raise(100));
    game.apply(1, PlayerAction::Raise(100));
    game.apply(2, PlayerAction::Raise(100));
    game.players[0].hand = CardStack::from(vec![HEART | TWO, CLUB | THREE]);
    game.players[1].hand = CardStack::from(vec![HEART | ACE, DIAMOND | ACE]);
    game.players[2].hand = CardStack::from(vec![SPADE | KING, CLUB | QUEEN]);
    let community = CardStack::from(vec![CLUB | ACE, SPADE | TEN, DIAMOND | TWO]);
    assert_eq!(game.showdown(&community), Some(1));
    assert_eq!(game.players[1].chips, 1200);
    assert_eq!(game.players[0].chips, 900);
    assert!(game.players.iter().all(|p| p.bet == 0));
    assert_eq!(game.pot(), 0);
}

#[test]
fn showdown_without_players_changes_nothing() {
    let mut game = three_bots(1000);
    for p in game.players.iter_mut() {
        p.folded = true;
    }
    assert_eq!(game.showdown(&CardStack::new(5)), None);
}

#[test]
fn end_hand_eliminates_and_moves_the_button() {
    let mut game = three_bots(1000);
    game.players[2].chips = 0;
    game.players[1].folded = true;
    game.players[0].hand.push(HEART | ACE);
    game.state = GameState::Showdown;
    game.dealer = 2;
    game.end_hand();
    assert_eq!(game.dealer, 0);
    assert_eq!(game.state, GameState::PreFlop);
    assert!(game.players[2].eliminated);
    assert!(!game.players[1].folded);
    assert!(game.players[0].hand.cards.is_empty());
    assert_eq!(game.remaining(), 2);
}

#[test]
fn state_moves_forward_only() {
    assert_eq!(GameState::PreFlop.next(), GameState::Flop);
    assert_eq!(GameState::Flop.next(), GameState::Turn);
    assert_eq!(GameState::Turn.next(), GameState::River);
    assert_eq!(GameState::River.next(), GameState::Showdown);
    assert_eq!(GameState::Showdown.next(), GameState::Showdown);
}

#[test]
fn lap_of_calls_and_folds_settles() {
    let mut game = three_bots(1000);
    game.apply(0, PlayerAction::Raise(100));
    game.turn = 0;
    let mut asked = 0;
    loop {
        match game.next_turn() {
            Turn::Settled => break,
            Turn::Skip(_) => {}
            Turn::Act(seat) => {
                asked += 1;
                let action = if seat == 2 { PlayerAction::Fold } else { PlayerAction::Call };
                game.apply(seat, action);
            }
        }
    }
    assert!(asked <= 3);
    assert_eq!(game.players[1].bet, 100);
    assert!(game.players[2].folded);
    assert!(!game.game_over());
}
